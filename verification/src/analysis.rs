//! What an aircraft is doing, judged by its track.

use crate::formula::{computes, is_symmetric, is_unit, Formula};
use crate::measure::Real;
use crate::types::{Behavior, TrackPoint};
use std::collections::VecDeque;
use vstd::prelude::*;

verus! {

/// The value of an optional measurement; zero where it is missing.
pub open spec fn or_zero(o: Option<Real>) -> Real {
    match o {
        Some(x) => x,
        None => Real::of(0),
    }
}

/// The value of an optional measurement; zero where it is missing.
pub fn value_or_zero(o: Option<Real>) -> (r: Real)
    ensures
        r == or_zero(o),
{
    match o {
        Some(x) => x,
        None => Real::zero(),
    }
}

/// Metres from one observation to another.
pub open spec fn metres_between(
    f: spec_fn(Formula) -> Real,
    from: TrackPoint,
    to: TrackPoint,
) -> Real {
    f(Formula::Distance { lat1: from.lat, lng1: from.lng, lat2: to.lat, lng2: to.lng })
}

/// Metres from one observation to another.
fn measure_between<U: Fn(Formula) -> Real>(unit: &U, from: &TrackPoint, to: &TrackPoint) -> (r:
    Real)
    requires
        is_unit(*unit),
    ensures
        forall|f: spec_fn(Formula) -> Real| #[trigger]
            computes(*unit, f) ==> r == metres_between(f, *from, *to),
{
    unit(Formula::Distance { lat1: from.lat, lng1: from.lng, lat2: to.lat, lng2: to.lng })
}

/// `a` and `b` are places in a track of length `n`, both among its last five, `a` the
/// older one.
pub open spec fn recent_pair(n: int, a: int, b: int) -> bool {
    0 <= a < b < n && n - 5 <= a
}

/// `r` is the largest distance between any two of the last five observations, or zero
/// where no distance is more.
pub open spec fn is_drift(h: Seq<TrackPoint>, f: spec_fn(Formula) -> Real, r: Real) -> bool {
    &&& !r.is_nan()
    &&& forall|a: int, b: int| #[trigger]
        recent_pair(h.len() as int, a, b) ==> !r.lt(metres_between(f, h[b], h[a]))
    &&& r == Real::of(0) || (Real::of(0).lt(r) && exists|a: int, b: int| #[trigger]
        recent_pair(h.len() as int, a, b) && r == metres_between(f, h[b], h[a]))
}

/// The last five observations, or all where there are fewer.
pub open spec fn recent(h: Seq<TrackPoint>) -> Seq<TrackPoint> {
    if h.len() > 5 {
        h.skip(h.len() - 5)
    } else {
        h
    }
}

/// No two of the last five observations are 250 m or more apart.
pub open spec fn stays_put(h: Seq<TrackPoint>, f: spec_fn(Formula) -> Real) -> bool {
    forall|a: int, b: int| #[trigger]
        recent_pair(h.len() as int, a, b) ==> !metres_between(f, h[b], h[a]).at_least(250)
}

/// The latest observation is less than 2 km from one that is four or more places older.
pub open spec fn comes_back(h: Seq<TrackPoint>, f: spec_fn(Formula) -> Real) -> bool {
    exists|i: int|
        0 <= i < h.len() - 4 && (#[trigger] metres_between(f, h[h.len() - 1], h[i])).below(2000)
}

/// Climb in metres per second between the latest observation and the one two places
/// before it (the first one where there are only two); zero where these are less than
/// half a second apart, or where there is only one.
pub open spec fn climb_rate(h: Seq<TrackPoint>, f: spec_fn(Formula) -> Real) -> Real {
    let n = h.len() as int;
    if n < 2 {
        Real::of(0)
    } else {
        let newest = h[n - 1];
        let older = h[if n >= 3 { n - 3 } else { 0 }];
        let seconds = f(Formula::Elapsed { from_ms: older.time_ms, to_ms: newest.time_ms });
        if seconds.below_half() {
            Real::of(0)
        } else {
            f(
                Formula::Rate {
                    from: or_zero(older.altitude_m),
                    to: or_zero(newest.altitude_m),
                    seconds,
                },
            )
        }
    }
}

/// What the aircraft with this track is doing.
pub open spec fn behavior_of(h: Seq<TrackPoint>, f: spec_fn(Formula) -> Real) -> Behavior {
    if h.len() == 0 {
        Behavior::Enroute
    } else {
        let latest = h.last();
        let speed = or_zero(latest.velocity_ms);
        let altitude = or_zero(latest.altitude_m);
        let rate = climb_rate(h, f);
        if latest.on_ground {
            if speed.above(1) {
                Behavior::Taxiing
            } else {
                Behavior::Enroute
            }
        } else if speed.below(6) && altitude.below(800) && h.len() >= 3 && stays_put(h, f) {
            Behavior::Hovering
        } else if h.len() >= 8 && comes_back(h, f) {
            Behavior::Holding
        } else if rate.below(-2) && altitude.below(3000) {
            Behavior::Approach
        } else if rate.above(4) && altitude.below(6000) {
            Behavior::Climbing
        } else if rate.below(-4) {
            Behavior::Descending
        } else if altitude.above(6000) && speed.above(100) {
            Behavior::Cruise
        } else {
            Behavior::Enroute
        }
    }
}

/// The largest distance between any two of the last five observations, in metres.
pub fn spatial_drift_m<U: Fn(Formula) -> Real>(history: &VecDeque<TrackPoint>, unit: &U) -> (r: Real)
    requires
        is_unit(*unit),
    ensures
        forall|f: spec_fn(Formula) -> Real| #[trigger]
            computes(*unit, f) ==> is_drift(history@, f, r),
{
    let n: usize = history.len();
    let first: usize = if n > 5 {
        n - 5
    } else {
        0
    };
    let mut most = Real::zero();
    let mut b: usize = n;
    while b > first
        invariant
            is_unit(*unit),
            n == history@.len(),
            first == (if n > 5 {
                n - 5
            } else {
                0
            }),
            first <= b <= n,
            !most.is_nan(),
            forall|f: spec_fn(Formula) -> Real, x: int, y: int|
                #![trigger computes(*unit, f), recent_pair(n as int, x, y)]
                computes(*unit, f) && recent_pair(n as int, x, y) && y >= b ==> !most.lt(
                    metres_between(f, history@[y], history@[x]),
                ),
            most == Real::of(0) || Real::of(0).lt(most),
            forall|f: spec_fn(Formula) -> Real| #[trigger]
                computes(*unit, f) ==> (most == Real::of(0) || exists|x: int, y: int|
                    #[trigger] recent_pair(n as int, x, y) && most == metres_between(
                        f,
                        history@[y],
                        history@[x],
                    )),
        decreases b,
    {
        b = b - 1;
        let mut a: usize = b;
        while a > first
            invariant
                is_unit(*unit),
                n == history@.len(),
                first == (if n > 5 {
                    n - 5
                } else {
                    0
                }),
                first <= a <= b < n,
                !most.is_nan(),
                forall|f: spec_fn(Formula) -> Real, x: int, y: int|
                    #![trigger computes(*unit, f), recent_pair(n as int, x, y)]
                    computes(*unit, f) && recent_pair(n as int, x, y) && (y > b || (y == b && x
                        >= a)) ==> !most.lt(metres_between(f, history@[y], history@[x])),
                most == Real::of(0) || Real::of(0).lt(most),
                forall|f: spec_fn(Formula) -> Real| #[trigger]
                    computes(*unit, f) ==> (most == Real::of(0) || exists|x: int, y: int|
                        #[trigger] recent_pair(n as int, x, y) && most == metres_between(
                            f,
                            history@[y],
                            history@[x],
                        )),
            decreases a,
        {
            a = a - 1;
            let d = measure_between(unit, &history[b], &history[a]);
            assert(recent_pair(n as int, a as int, b as int));
            proof {
                crate::measure::lemma_zero_is_small(1);
            }
            if most.is_less(d) {
                most = d;
            }
        }
    }
    most
}

/// Climb in metres per second over the latest observations.
pub fn altitude_rate_mps<U: Fn(Formula) -> Real>(history: &VecDeque<TrackPoint>, unit: &U) -> (r: Real)
    requires
        is_unit(*unit),
    ensures
        forall|f: spec_fn(Formula) -> Real| #[trigger]
            computes(*unit, f) ==> r == climb_rate(history@, f),
{
    let n: usize = history.len();
    if n < 2 {
        return Real::zero();
    }
    let newest: TrackPoint = history[n - 1];
    let older: TrackPoint = history[if n >= 3 {
        n - 3
    } else {
        0
    }];
    let seconds = unit(Formula::Elapsed { from_ms: older.time_ms, to_ms: newest.time_ms });
    if seconds.is_below_half() {
        return Real::zero();
    }
    unit(
        Formula::Rate {
            from: value_or_zero(older.altitude_m),
            to: value_or_zero(newest.altitude_m),
            seconds,
        },
    )
}

/// Whether the latest observation is near one that is four or more places older.
pub fn is_holding<U: Fn(Formula) -> Real>(history: &VecDeque<TrackPoint>, unit: &U) -> (r: bool)
    requires
        is_unit(*unit),
    ensures
        forall|f: spec_fn(Formula) -> Real| #[trigger]
            computes(*unit, f) ==> r == (history@.len() >= 8 && comes_back(history@, f)),
{
    let n: usize = history.len();
    if n < 8 {
        return false;
    }
    let newest: TrackPoint = history[n - 1];
    let mut i: usize = 0;
    while i < n - 4
        invariant
            is_unit(*unit),
            n == history@.len(),
            n >= 8,
            i <= n - 4,
            newest == history@[n - 1],
            forall|f: spec_fn(Formula) -> Real, k: int|
                #![trigger computes(*unit, f), metres_between(f, newest, history@[k])]
                computes(*unit, f) && 0 <= k < i ==> !metres_between(
                    f,
                    newest,
                    history@[k],
                ).below(2000),
        decreases n - i,
    {
        let d = measure_between(unit, &newest, &history[i]);
        if d.is_below(2000) {
            return true;
        }
        i = i + 1;
    }
    false
}

/// What an aircraft is doing, by its track; the track is oldest first and its last
/// observation is the current one.
pub fn classify<U: Fn(Formula) -> Real>(history: &VecDeque<TrackPoint>, unit: &U) -> (r: Behavior)
    requires
        is_unit(*unit),
    ensures
        forall|f: spec_fn(Formula) -> Real| #[trigger]
            computes(*unit, f) ==> r == behavior_of(history@, f),
{
    let n: usize = history.len();
    if n == 0 {
        return Behavior::Enroute;
    }
    let latest: TrackPoint = history[n - 1];
    let speed = value_or_zero(latest.velocity_ms);
    let altitude = value_or_zero(latest.altitude_m);
    if latest.on_ground {
        return if speed.is_above(1) {
            Behavior::Taxiing
        } else {
            Behavior::Enroute
        };
    }
    if speed.is_below(6) && altitude.is_below(800) && n >= 3 {
        let drift = spatial_drift_m(history, unit);
        proof {
            assert forall|f: spec_fn(Formula) -> Real| #[trigger] computes(*unit, f) implies (
            drift.below(250) <==> stays_put(history@, f)) by {
                lemma_drift(history@, f, drift);
            }
        }
        if drift.is_below(250) {
            return Behavior::Hovering;
        }
    }
    if is_holding(history, unit) {
        return Behavior::Holding;
    }
    let rate = altitude_rate_mps(history, unit);
    if rate.is_below_minus(2) && altitude.is_below(3000) {
        return Behavior::Approach;
    }
    if rate.is_above(4) && altitude.is_below(6000) {
        return Behavior::Climbing;
    }
    if rate.is_below_minus(4) {
        return Behavior::Descending;
    }
    if altitude.is_above(6000) && speed.is_above(100) {
        return Behavior::Cruise;
    }
    Behavior::Enroute
}

/// The drift is below 250 m exactly where no two recent observations are 250 m apart.
proof fn lemma_drift(h: Seq<TrackPoint>, f: spec_fn(Formula) -> Real, drift: Real)
    requires
        is_drift(h, f, drift),
    ensures
        drift.below(250) <==> stays_put(h, f),
{
    crate::measure::lemma_zero_is_small(250);
    if stays_put(h, f) && drift != Real::of(0) {
        let (a, b) = choose|a: int, b: int| #[trigger]
            recent_pair(h.len() as int, a, b) && drift == metres_between(f, h[b], h[a]);
        assert(!drift.at_least(250));
    }
}

/// There is only one drift of a track, and it is zero where there are not two
/// observations.
pub proof fn drift_is_unique(h: Seq<TrackPoint>, f: spec_fn(Formula) -> Real, r: Real, q: Real)
    requires
        is_drift(h, f, r),
        is_drift(h, f, q),
    ensures
        r == q,
        h.len() < 2 ==> r == Real::of(0),
{
    crate::measure::lemma_zero_is_small(1);
    if r != q {
        crate::measure::lemma_worth_unique(r, q);
    }
}

/// Observations that are older than the last five do not change the drift.
pub proof fn drift_looks_at_the_last_five(
    older: Seq<TrackPoint>,
    h: Seq<TrackPoint>,
    f: spec_fn(Formula) -> Real,
    r: Real,
)
    requires
        h.len() >= 5,
    ensures
        is_drift(older + h, f, r) <==> is_drift(h, f, r),
{
    let all = older + h;
    let n = h.len() as int;
    let m = all.len() as int;
    let d = older.len() as int;
    assert forall|a: int, b: int| #[trigger] recent_pair(m, a, b) implies recent_pair(n, a - d, b - d)
        && all[a] == h[a - d] && all[b] == h[b - d] by {}
    assert forall|a: int, b: int| #[trigger] recent_pair(n, a, b) implies recent_pair(m, a + d, b + d)
        && all[a + d] == h[a] && all[b + d] == h[b] by {}
    if is_drift(all, f, r) && r != Real::of(0) {
        let (a, b) = choose|a: int, b: int| #[trigger]
            recent_pair(m, a, b) && r == metres_between(f, all[b], all[a]);
        assert(recent_pair(n, a - d, b - d));
    }
    if is_drift(h, f, r) && r != Real::of(0) {
        let (a, b) = choose|a: int, b: int| #[trigger]
            recent_pair(n, a, b) && r == metres_between(f, h[b], h[a]);
        assert(recent_pair(m, a + d, b + d));
    }
}

/// The values of two recent places of `h` are those of two recent places of `t`, the
/// older one first.
proof fn lemma_recent_pair(
    h: Seq<TrackPoint>,
    t: Seq<TrackPoint>,
    f: spec_fn(Formula) -> Real,
    a: int,
    b: int,
) -> (r: (int, int))
    requires
        is_symmetric(f),
        recent(h).to_multiset() == recent(t).to_multiset(),
        recent_pair(h.len() as int, a, b),
    ensures
        recent_pair(t.len() as int, r.0, r.1),
        metres_between(f, t[r.1], t[r.0]) == metres_between(f, h[b], h[a]),
{
    let from = h.len() - recent(h).len();
    let to = t.len() - recent(t).len();
    let (x, y) = crate::order::lemma_two_places(recent(h), recent(t), a - from, b - from);
    assert(t[x + to] == h[a]);
    assert(t[y + to] == h[b]);
    if x < y {
        (x + to, y + to)
    } else {
        (y + to, x + to)
    }
}

proof fn lemma_drift_moves(
    h: Seq<TrackPoint>,
    t: Seq<TrackPoint>,
    f: spec_fn(Formula) -> Real,
    r: Real,
)
    requires
        is_symmetric(f),
        recent(h).to_multiset() == recent(t).to_multiset(),
        is_drift(h, f, r),
    ensures
        is_drift(t, f, r),
{
    assert forall|a: int, b: int| #[trigger] recent_pair(t.len() as int, a, b) implies !r.lt(
        metres_between(f, t[b], t[a]),
    ) by {
        let (x, y) = lemma_recent_pair(t, h, f, a, b);
        assert(recent_pair(h.len() as int, x, y));
    }
    if r != Real::of(0) {
        let (a, b) = choose|a: int, b: int| #[trigger]
            recent_pair(h.len() as int, a, b) && r == metres_between(f, h[b], h[a]);
        let (x, y) = lemma_recent_pair(h, t, f, a, b);
        assert(recent_pair(t.len() as int, x, y));
    }
}

/// The order of the last five observations does not change the drift, where distances do
/// not depend on which of the two comes first.
pub proof fn drift_does_not_depend_on_order(
    h: Seq<TrackPoint>,
    t: Seq<TrackPoint>,
    f: spec_fn(Formula) -> Real,
    r: Real,
)
    requires
        is_symmetric(f),
        recent(h).to_multiset() == recent(t).to_multiset(),
    ensures
        is_drift(h, f, r) <==> is_drift(t, f, r),
{
    if is_drift(h, f, r) {
        lemma_drift_moves(h, t, f, r);
    }
    if is_drift(t, f, r) {
        lemma_drift_moves(t, h, f, r);
    }
}

/// An aircraft on the ground is taxiing or en route, whatever its track looks like, and
/// one in the air is not taxiing.
pub proof fn taxiing_is_on_the_ground(h: Seq<TrackPoint>, f: spec_fn(Formula) -> Real)
    requires
        h.len() > 0,
    ensures
        h.last().on_ground ==> behavior_of(h, f) is Taxiing || behavior_of(h, f) is Enroute,
        behavior_of(h, f) is Taxiing ==> h.last().on_ground,
{
}

/// An aircraft with fewer than three observations is never hovering, one with fewer than
/// eight never holding, and one with fewer than two neither climbs nor descends.
pub proof fn short_tracks_neither_hover_nor_hold(h: Seq<TrackPoint>, f: spec_fn(Formula) -> Real)
    ensures
        h.len() < 3 ==> !(behavior_of(h, f) is Hovering),
        h.len() < 8 ==> !(behavior_of(h, f) is Holding),
        h.len() < 2 ==> climb_rate(h, f) == Real::of(0),
{
}

/// An aircraft on the ground taxis where it is faster than 1 m/s. One whose speed is not
/// known stands still.
pub proof fn taxiing_is_moving_on_the_ground(
    h: Seq<TrackPoint>,
    f: spec_fn(Formula) -> Real,
    speed: Real,
)
    requires
        h.len() > 0,
        h[h.len() - 1].on_ground,
        speed == (match h[h.len() - 1].velocity_ms {
            Some(x) => x,
            None => Real { bits: 0 },
        }),
    ensures
        speed.above(1) ==> behavior_of(h, f) is Taxiing,
        !speed.above(1) ==> behavior_of(h, f) is Enroute,
{
    crate::measure::lemma_zero_is_small(1);
}

/// An airborne aircraft hovers exactly where it is slower than 6 m/s and lower than 800 m,
/// has been seen three times, and no two of its last five places are 250 m apart.
pub proof fn hovering_is_slow_low_and_still(
    h: Seq<TrackPoint>,
    f: spec_fn(Formula) -> Real,
    speed: Real,
    altitude: Real,
)
    requires
        h.len() > 0,
        !h[h.len() - 1].on_ground,
        speed == (match h[h.len() - 1].velocity_ms {
            Some(x) => x,
            None => Real { bits: 0 },
        }),
        altitude == (match h[h.len() - 1].altitude_m {
            Some(x) => x,
            None => Real { bits: 0 },
        }),
    ensures
        behavior_of(h, f) is Hovering <==> {
            &&& speed.below(6)
            &&& altitude.below(800)
            &&& h.len() >= 3
            &&& forall|a: int, b: int|
                #![trigger h[a], h[b]]
                0 <= a < b < h.len() && h.len() - 5 <= a ==> !f(
                    Formula::Distance {
                        lat1: h[b].lat,
                        lng1: h[b].lng,
                        lat2: h[a].lat,
                        lng2: h[a].lng,
                    },
                ).at_least(250)
        },
{
    crate::measure::lemma_zero_is_small(1);
    if stays_put(h, f) {
        assert forall|a: int, b: int|
            #![trigger h[a], h[b]]
            0 <= a < b < h.len() && h.len() - 5 <= a implies !f(
            Formula::Distance { lat1: h[b].lat, lng1: h[b].lng, lat2: h[a].lat, lng2: h[a].lng },
        ).at_least(250) by {
            assert(recent_pair(h.len() as int, a, b));
            assert(!metres_between(f, h[b], h[a]).at_least(250));
        }
    } else {
        let (a, b) = choose|a: int, b: int| #[trigger]
            recent_pair(h.len() as int, a, b) && metres_between(f, h[b], h[a]).at_least(250);
        assert(0 <= a < b < h.len() && h.len() - 5 <= a);
        assert(h[a] == h[a] && h[b] == h[b]);
    }
}

/// An airborne aircraft that does not hover holds exactly where it has been seen eight
/// times and is less than 2 km from a place that it had four or more observations ago.
pub proof fn holding_is_coming_back(h: Seq<TrackPoint>, f: spec_fn(Formula) -> Real)
    requires
        h.len() > 0,
        !h[h.len() - 1].on_ground,
        !(behavior_of(h, f) is Hovering),
    ensures
        behavior_of(h, f) is Holding <==> {
            &&& h.len() >= 8
            &&& exists|i: int|
                0 <= i < h.len() - 4 && f(
                    Formula::Distance {
                        lat1: h[h.len() - 1].lat,
                        lng1: h[h.len() - 1].lng,
                        lat2: (#[trigger] h[i]).lat,
                        lng2: h[i].lng,
                    },
                ).below(2000)
        },
{
    let last = h[h.len() - 1];
    if comes_back(h, f) {
        let i = choose|i: int|
            0 <= i < h.len() - 4 && (#[trigger] metres_between(f, h[h.len() - 1], h[i])).below(2000);
        assert(h[i] == h[i]);
    } else {
        assert forall|i: int| 0 <= i < h.len() - 4 implies !f(
            Formula::Distance {
                lat1: last.lat,
                lng1: last.lng,
                lat2: (#[trigger] h[i]).lat,
                lng2: h[i].lng,
            },
        ).below(2000) by {
            assert(!metres_between(f, h[h.len() - 1], h[i]).below(2000));
        }
    }
}

/// The rate of climb is that between the latest observation and the one two before it, or
/// the first of two. It is zero where these are less than half a second apart, and for a
/// single observation.
pub proof fn climb_is_taken_over_three_observations(
    h: Seq<TrackPoint>,
    f: spec_fn(Formula) -> Real,
    k: int,
    from: Real,
    to: Real,
    seconds: Real,
)
    requires
        h.len() >= 2,
        k == (if h.len() == 2 {
            0
        } else {
            h.len() - 3
        }),
        from == (match h[k].altitude_m {
            Some(x) => x,
            None => Real { bits: 0 },
        }),
        to == (match h[h.len() - 1].altitude_m {
            Some(x) => x,
            None => Real { bits: 0 },
        }),
        seconds == f(Formula::Elapsed { from_ms: h[k].time_ms, to_ms: h[h.len() - 1].time_ms }),
    ensures
        !seconds.below_half() ==> climb_rate(h, f) == f(Formula::Rate { from, to, seconds }),
        seconds.below_half() ==> climb_rate(h, f) == (Real { bits: 0 }),
{
    crate::measure::lemma_zero_is_small(1);
}

/// The phase of flight of an airborne aircraft that neither hovers nor holds, by its rate
/// of climb over three observations: approach below 3000 m when it sinks by more than 2 m/s,
/// climb below 6000 m when it rises by more than 4 m/s, descent when it sinks by more than
/// 4 m/s from 3000 m on, cruise above 6000 m and 100 m/s, and en route otherwise.
pub proof fn vertical_speed_tells_the_phase(
    h: Seq<TrackPoint>,
    f: spec_fn(Formula) -> Real,
    k: int,
    from: Real,
    altitude: Real,
    speed: Real,
    seconds: Real,
    rate: Real,
)
    requires
        h.len() >= 2,
        !h[h.len() - 1].on_ground,
        !(behavior_of(h, f) is Hovering),
        !(behavior_of(h, f) is Holding),
        k == (if h.len() == 2 {
            0
        } else {
            h.len() - 3
        }),
        from == (match h[k].altitude_m {
            Some(x) => x,
            None => Real { bits: 0 },
        }),
        altitude == (match h[h.len() - 1].altitude_m {
            Some(x) => x,
            None => Real { bits: 0 },
        }),
        speed == (match h[h.len() - 1].velocity_ms {
            Some(x) => x,
            None => Real { bits: 0 },
        }),
        seconds == f(Formula::Elapsed { from_ms: h[k].time_ms, to_ms: h[h.len() - 1].time_ms }),
        rate == (if seconds.below_half() {
            Real { bits: 0 }
        } else {
            f(Formula::Rate { from, to: altitude, seconds })
        }),
    ensures
        behavior_of(h, f) is Approach <==> rate.below(-2) && altitude.below(3000),
        behavior_of(h, f) is Climbing <==> rate.above(4) && altitude.below(6000),
        behavior_of(h, f) is Descending <==> rate.below(-4) && !altitude.below(3000),
        behavior_of(h, f) is Cruise <==> altitude.above(6000) && speed.above(100) && !rate.below(
            -4,
        ),
        !(behavior_of(h, f) is Taxiing),
{
    climb_is_taken_over_three_observations(h, f, k, from, altitude, seconds);
    crate::measure::lemma_zero_is_small(1);
    crate::measure::whole_numbers_are_spread(rate, -4, -2);
    crate::measure::whole_numbers_are_spread(rate, -2, 4);
    crate::measure::whole_numbers_are_spread(altitude, 3000, 6000);
}

/// A single observation in the air is cruise or en route.
pub proof fn one_observation_tells_no_phase(
    h: Seq<TrackPoint>,
    f: spec_fn(Formula) -> Real,
    altitude: Real,
    speed: Real,
)
    requires
        h.len() == 1,
        !h[0].on_ground,
        altitude == (match h[0].altitude_m {
            Some(x) => x,
            None => Real { bits: 0 },
        }),
        speed == (match h[0].velocity_ms {
            Some(x) => x,
            None => Real { bits: 0 },
        }),
    ensures
        altitude.above(6000) && speed.above(100) ==> behavior_of(h, f) is Cruise,
        !(altitude.above(6000) && speed.above(100)) ==> behavior_of(h, f) is Enroute,
{
    crate::measure::lemma_zero_is_small(1);
    let zero = Real::of(0);
    vstd::arithmetic::power2::lemma_pow2_pos(1074);
    assert(-2 * crate::measure::one() < 0 && 4 * crate::measure::one() > 0 && -4
        * crate::measure::one() < 0);
}

/// Nothing is said of an aircraft without observations.
pub proof fn no_observation_is_en_route(h: Seq<TrackPoint>, f: spec_fn(Formula) -> Real)
    requires
        h.len() == 0,
    ensures
        behavior_of(h, f) is Enroute,
{
}

/// What an aircraft is doing depends on the moments, places and altitudes of its track and
/// on the speed and contact with the ground of its latest observation, and on nothing else.
pub proof fn behavior_reads_only_the_path(
    h: Seq<TrackPoint>,
    t: Seq<TrackPoint>,
    f: spec_fn(Formula) -> Real,
)
    requires
        h.len() == t.len(),
        forall|i: int|
            0 <= i < h.len() ==> {
                &&& (#[trigger] h[i]).time_ms == t[i].time_ms
                &&& h[i].lng == t[i].lng
                &&& h[i].lat == t[i].lat
                &&& h[i].altitude_m == t[i].altitude_m
            },
        h.len() > 0 ==> h.last().velocity_ms == t.last().velocity_ms && h.last().on_ground
            == t.last().on_ground,
    ensures
        behavior_of(h, f) == behavior_of(t, f),
{
    assert forall|a: int, b: int| 0 <= a < h.len() && 0 <= b < h.len() implies #[trigger]
        metres_between(f, h[b], h[a]) == metres_between(f, t[b], t[a]) by {}
    if h.len() > 0 {
        let n = h.len() as int;
        if stays_put(h, f) {
            assert forall|a: int, b: int| #[trigger] recent_pair(n, a, b) implies !metres_between(
                f,
                t[b],
                t[a],
            ).at_least(250) by {
                assert(metres_between(f, h[b], h[a]) == metres_between(f, t[b], t[a]));
            }
        } else {
            let (a, b) = choose|a: int, b: int| #[trigger]
                recent_pair(n, a, b) && metres_between(f, h[b], h[a]).at_least(250);
            assert(metres_between(f, h[b], h[a]) == metres_between(f, t[b], t[a]));
        }
        if comes_back(h, f) {
            let i = choose|i: int|
                0 <= i < n - 4 && (#[trigger] metres_between(f, h[n - 1], h[i])).below(2000);
            assert(metres_between(f, t[n - 1], t[i]).below(2000));
        }
        if comes_back(t, f) {
            let i = choose|i: int|
                0 <= i < n - 4 && (#[trigger] metres_between(f, t[n - 1], t[i])).below(2000);
            assert(metres_between(f, h[n - 1], h[i]).below(2000));
        }
    }
}

/// No two of the last five observations are further apart than the drift, and the drift is
/// the distance of two of them unless it is zero.
pub proof fn drift_is_the_largest_distance(
    h: Seq<TrackPoint>,
    f: spec_fn(Formula) -> Real,
    r: Real,
    a: int,
    b: int,
)
    requires
        is_drift(h, f, r),
        0 <= a < b < h.len(),
        h.len() - 5 <= a,
    ensures
        !r.lt(
            f(
                Formula::Distance {
                    lat1: h[b].lat,
                    lng1: h[b].lng,
                    lat2: h[a].lat,
                    lng2: h[a].lng,
                },
            ),
        ),
        r == (Real { bits: 0 }) || exists|x: int, y: int|
            #![trigger h[x], h[y]]
            0 <= x < y < h.len() && h.len() - 5 <= x && r == f(
                Formula::Distance {
                    lat1: h[y].lat,
                    lng1: h[y].lng,
                    lat2: h[x].lat,
                    lng2: h[x].lng,
                },
            ),
{
    crate::measure::lemma_zero_is_small(1);
    assert(recent_pair(h.len() as int, a, b));
    assert(!r.lt(metres_between(f, h[b], h[a])));
    if r != Real::of(0) {
        let (x, y) = choose|x: int, y: int| #[trigger]
            recent_pair(h.len() as int, x, y) && r == metres_between(f, h[y], h[x]);
        assert(h[x] == h[x] && h[y] == h[y]);
    }
}

} // verus!
