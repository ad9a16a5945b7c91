//! Aircraft that will be heard on the ground.
//!
//! Every airborne aircraft that moves is reckoned ahead along its heading. The sample
//! with the shortest line of sight to the listener tells when it is closest, and the
//! level there tells whether it stands out from the background.

use crate::analysis::{or_zero, value_or_zero};
use crate::formula::{computes, is_unit, Formula};
use crate::measure::{one, Real};
use crate::order::{
    is_preorder, sorted_by, sorted_is_ordered, sorted_join, sorted_members, stable_sort,
};
use crate::types::{contents, Aircraft, AircraftView, AudibleEvent, EventView};
use vstd::prelude::*;
use vstd::utf8::encode_utf8;

verus! {

/// How far ahead aircraft are reckoned, in seconds.
pub const ACOUSTIC_HORIZON_S: u64 = 240;

/// Seconds between two samples of a reckoned path.
pub const SAMPLE_STEP_S: u64 = 5;

/// Level of the background in dB.
pub const AMBIENT_DB: u64 = 50;

/// Least level in dB that stands out from the background.
pub const AUDIBLE_THRESHOLD_DB: u64 = AMBIENT_DB + 5;

/// Least distance in metres that a sound is taken to come from.
pub const NEAREST_SOUND_M: u64 = 100;

/// Horizons from here on are too long: their samples are no longer exact.
pub const HORIZON_LIMIT_S: u64 = 0x1f_ffff_ffff_fff0;

/// A callsign that is a short tail number of the United States.
pub open spec fn is_tail_number(callsign: Option<Seq<char>>) -> bool {
    match callsign {
        Some(c) => c.len() > 0 && c[0] == 'N' && encode_utf8(c).len() <= 7,
        None => false,
    }
}

/// Level of an aircraft at 1 km in dB, guessed from how it flies and what it is called:
/// a helicopter, a small aircraft or a jet.
pub open spec fn source_level(a: AircraftView) -> int {
    let altitude = match a.altitude_m {
        Some(x) => x,
        None => Real::of(10_000),
    };
    if or_zero(a.velocity_ms).below(30) && altitude.below(1500) {
        70
    } else if is_tail_number(a.callsign) && altitude.below(3000) {
        62
    } else {
        78
    }
}

/// The sample of a path that is closest to the listener.
#[derive(Debug, Clone, Copy)]
pub struct Closest {
    pub slant_m: Real,
    pub horizontal_m: Real,
    pub at_s: u64,
}

/// Horizontal distance in metres from the listener, `t_s` seconds from now.
pub open spec fn horizontal_at(
    f: spec_fn(Formula) -> Real,
    a: AircraftView,
    listener: (Real, Real),
    t_s: Real,
) -> Real {
    let heading_deg = or_zero(a.heading);
    let speed_ms = or_zero(a.velocity_ms);
    let lng = f(
        Formula::ReckonedLng {
            lng: a.longitude,
            lat: a.latitude,
            heading_deg,
            speed_ms,
            dt_s: t_s,
        },
    );
    let lat = f(
        Formula::ReckonedLat {
            lng: a.longitude,
            lat: a.latitude,
            heading_deg,
            speed_ms,
            dt_s: t_s,
        },
    );
    f(Formula::Distance { lat1: lat, lng1: lng, lat2: listener.1, lng2: listener.0 })
}

/// Length of the line of sight in metres, `t_s` seconds from now.
pub open spec fn slant_at(
    f: spec_fn(Formula) -> Real,
    a: AircraftView,
    listener: (Real, Real),
    t_s: Real,
) -> Real {
    f(
        Formula::Slant {
            horizontal_m: horizontal_at(f, a, listener, t_s),
            vertical_m: or_zero(a.altitude_m),
        },
    )
}

/// The closest of the first `n` samples; of equals the earliest.
pub open spec fn closest_of(
    f: spec_fn(Formula) -> Real,
    a: AircraftView,
    listener: (Real, Real),
    n: nat,
) -> Closest
    decreases n,
{
    if n == 0 {
        let far = Real { bits: (crate::measure::INFINITY_FIELD - 1) as u64 };
        Closest { slant_m: far, horizontal_m: far, at_s: 0 }
    } else {
        let best = closest_of(f, a, listener, (n - 1) as nat);
        let t = SAMPLE_STEP_S * (n - 1);
        if slant_at(f, a, listener, Real::of(t)).lt(best.slant_m) {
            Closest {
                slant_m: slant_at(f, a, listener, Real::of(t)),
                horizontal_m: horizontal_at(f, a, listener, Real::of(t)),
                at_s: t as u64,
            }
        } else {
            best
        }
    }
}

/// How many samples lie in a horizon: one at every step from now to its end.
pub open spec fn samples_in(horizon_s: Real) -> nat {
    if horizon_s.is_nan() || horizon_s.worth() < 0 {
        0
    } else {
        (horizon_s.worth() / (SAMPLE_STEP_S * one()) + 1) as nat
    }
}

/// The samples of the horizon are exact.
pub open spec fn is_horizon(horizon_s: Real) -> bool {
    !horizon_s.at_least(HORIZON_LIMIT_S as int)
}

/// The distance that a sound is taken to come from: that of the aircraft, but not less than
/// `NEAREST_SOUND_M`.
pub open spec fn sound_distance(slant_m: Real) -> Real {
    if slant_m.below(NEAREST_SOUND_M as int) {
        Real::of(NEAREST_SOUND_M as int)
    } else {
        slant_m
    }
}

/// What an aircraft's closest sample sounds like.
pub open spec fn event_at(
    f: spec_fn(Formula) -> Real,
    a: AircraftView,
    best: Closest,
) -> EventView {
    EventView {
        icao24: a.icao24,
        callsign: a.callsign,
        closest_approach_in_s: Real::of(best.at_s as int),
        closest_distance_nm: f(Formula::NauticalMiles { metres: best.horizontal_m }),
        closest_slant_m: best.slant_m,
        estimated_db: f(
            Formula::Level {
                source_db: Real::of(source_level(a)),
                slant_m: sound_distance(best.slant_m),
            },
        ),
    }
}

/// The aircraft is heard: it flies, it moves, it is not closest only at the end of the
/// horizon, and there it is loud enough.
pub open spec fn is_heard(
    f: spec_fn(Formula) -> Real,
    a: AircraftView,
    listener: (Real, Real),
    horizon_s: Real,
) -> bool {
    let best = closest_of(f, a, listener, samples_in(horizon_s));
    &&& !a.on_ground
    &&& !or_zero(a.velocity_ms).below(1)
    &&& !f(Formula::Difference { a: horizon_s, b: Real::of(SAMPLE_STEP_S as int) }).le(
        Real::of(best.at_s as int),
    )
    &&& event_at(f, a, best).estimated_db.at_least(AUDIBLE_THRESHOLD_DB as int)
}

/// The events of the aircraft in the order of the list.
pub open spec fn events_of(
    f: spec_fn(Formula) -> Real,
    s: Seq<AircraftView>,
    listener: (Real, Real),
    horizon_s: Real,
) -> Seq<EventView>
    decreases s.len(),
{
    if s.len() == 0 {
        Seq::empty()
    } else {
        let before = events_of(f, s.drop_last(), listener, horizon_s);
        if is_heard(f, s.last(), listener, horizon_s) {
            before.push(
                event_at(f, s.last(), closest_of(f, s.last(), listener, samples_in(horizon_s))),
            )
        } else {
            before
        }
    }
}

/// Order of events: by time.
pub open spec fn event_order() -> spec_fn(EventView, EventView) -> bool {
    |x: EventView, y: EventView|
        x.closest_approach_in_s.worth() <= y.closest_approach_in_s.worth()
}

/// The events to report, soonest first.
pub open spec fn audible(
    f: spec_fn(Formula) -> Real,
    s: Seq<AircraftView>,
    listener: (Real, Real),
    horizon_s: Real,
) -> Seq<EventView> {
    sorted_by(events_of(f, s, listener, horizon_s), event_order())
}

/// Whether a callsign is a short tail number of the United States.
fn tail_number(callsign: &Option<String>) -> (r: bool)
    ensures
        r == is_tail_number(crate::text::opt_text(*callsign)),
{
    match callsign {
        Some(c) => {
            proof {
                reveal_strlit("N");
                if c@.len() > 0 && c@[0] == 'N' {
                    assert("N"@ =~= c@.subrange(0, 1));
                }
                if "N"@.is_prefix_of(c@) {
                    assert(c@.subrange(0, 1)[0] == 'N');
                }
            }
            crate::text::begins_with(c.as_str(), "N") && c.as_str().as_bytes().len() <= 7
        },
        None => false,
    }
}

/// Level of an aircraft at 1 km in dB.
pub fn source_db_at_1km(a: &Aircraft) -> (r: u64)
    ensures
        r == source_level(a@),
{
    let altitude = match a.altitude_m {
        Some(x) => x,
        None => Real::whole(10_000),
    };
    if value_or_zero(a.velocity_ms).is_below(30) && altitude.is_below(1500) {
        70
    } else if tail_number(&a.callsign) && altitude.is_below(3000) {
        62
    } else {
        78
    }
}

/// A horizon of a whole number of seconds below the limit has exact samples.
pub proof fn lemma_is_horizon(horizon_s: Real, n: int)
    requires
        horizon_s.equals(n),
        n < HORIZON_LIMIT_S,
    ensures
        is_horizon(horizon_s),
{
    vstd::arithmetic::power2::lemma_pow2_pos(1074);
    assert(n * one() < HORIZON_LIMIT_S * one()) by (nonlinear_arith)
        requires
            n < HORIZON_LIMIT_S,
            one() > 0,
    ;
}

/// One more sample lies in the horizon.
proof fn lemma_next_sample(horizon_s: Real, step: u64, n: nat)
    requires
        step == SAMPLE_STEP_S * n,
    ensures
        Real::of(step as int).equals(step as int) ==> (Real::of(step as int).le(horizon_s) <==> n
            < samples_in(horizon_s)),
{
    if Real::of(step as int).equals(step as int) {
        vstd::arithmetic::power2::lemma_pow2_pos(1074);
        let w = horizon_s.worth();
        let d = (SAMPLE_STEP_S * one()) as int;
        assert(step * one() == n * d) by (nonlinear_arith)
            requires
                step == SAMPLE_STEP_S * n,
                d == SAMPLE_STEP_S * one(),
        ;
        if w >= 0 {
            vstd::arithmetic::div_mod::lemma_fundamental_div_mod(w, d);
            vstd::arithmetic::div_mod::lemma_mod_bound(w, d);
            let q = w / d;
            assert(n * d <= w <==> n <= q) by (nonlinear_arith)
                requires
                    w == d * q + w % d,
                    0 <= w % d < d,
            ;
        } else {
            assert(n * d >= 0) by (nonlinear_arith)
                requires
                    n >= 0,
                    d >= 0,
            ;
        }
    }
}

/// The closest sample of an aircraft's path.
fn closest_sample<U: Fn(Formula) -> Real>(
    a: &Aircraft,
    listener: (Real, Real),
    horizon_s: Real,
    unit: &U,
) -> (r: Closest)
    requires
        is_unit(*unit),
        is_horizon(horizon_s),
    ensures
        r.at_s < HORIZON_LIMIT_S,
        forall|f: spec_fn(Formula) -> Real| #[trigger]
            computes(*unit, f) ==> r == closest_of(f, a@, listener, samples_in(horizon_s)),
{
    let heading_deg = value_or_zero(a.heading);
    let speed_ms = value_or_zero(a.velocity_ms);
    let vertical_m = value_or_zero(a.altitude_m);
    let far = Real::largest();
    let mut best = Closest { slant_m: far, horizontal_m: far, at_s: 0 };
    let mut step: u64 = 0;
    let ghost mut n: nat = 0;
    let mut t_s = Real::whole(step);
    proof {
        lemma_next_sample(horizon_s, step, n);
    }
    while t_s.is_at_most(horizon_s)
        invariant
            is_unit(*unit),
            is_horizon(horizon_s),
            step == SAMPLE_STEP_S * n,
            t_s.equals(step as int),
            t_s == Real::of(step as int),
            t_s.le(horizon_s) <==> n < samples_in(horizon_s),
            n <= samples_in(horizon_s),
            best.at_s < HORIZON_LIMIT_S,
            heading_deg == or_zero(a.heading),
            speed_ms == or_zero(a.velocity_ms),
            vertical_m == or_zero(a.altitude_m),
            forall|f: spec_fn(Formula) -> Real| #[trigger]
                computes(*unit, f) ==> best == closest_of(f, a@, listener, n),
        decreases samples_in(horizon_s) - n,
    {
        let lng = unit(
            Formula::ReckonedLng {
                lng: a.longitude,
                lat: a.latitude,
                heading_deg,
                speed_ms,
                dt_s: t_s,
            },
        );
        let lat = unit(
            Formula::ReckonedLat {
                lng: a.longitude,
                lat: a.latitude,
                heading_deg,
                speed_ms,
                dt_s: t_s,
            },
        );
        let horizontal_m = unit(
            Formula::Distance { lat1: lat, lng1: lng, lat2: listener.1, lng2: listener.0 },
        );
        let slant_m = unit(Formula::Slant { horizontal_m, vertical_m });
        proof {
            vstd::arithmetic::power2::lemma_pow2_pos(1074);
            assert(step < HORIZON_LIMIT_S) by (nonlinear_arith)
                requires
                    step * one() <= horizon_s.worth(),
                    horizon_s.worth() < HORIZON_LIMIT_S * one(),
                    one() > 0,
            ;
        }
        if slant_m.is_less(best.slant_m) {
            best = Closest { slant_m, horizontal_m, at_s: step };
        }
        proof {
            n = n + 1;
        }
        step = step + SAMPLE_STEP_S;
        t_s = Real::whole(step);
        proof {
            lemma_next_sample(horizon_s, step, n);
        }
    }
    best
}

/// Whether one event comes before another, or at the same time.
fn event_before(x: &AudibleEvent, y: &AudibleEvent) -> (r: bool)
    ensures
        r == event_order()(x@, y@),
{
    x.closest_approach_in_s.is_worth_at_most(y.closest_approach_in_s)
}

/// The aircraft that will be heard at the listener within the horizon, soonest first.
pub fn predict_audible<U: Fn(Formula) -> Real>(
    aircraft: &[Aircraft],
    listener_lng: Real,
    listener_lat: Real,
    horizon_s: Real,
    unit: &U,
) -> (r: Vec<AudibleEvent>)
    requires
        is_unit(*unit),
        is_horizon(horizon_s),
    ensures
        forall|f: spec_fn(Formula) -> Real| #[trigger]
            computes(*unit, f) ==> contents(r@) == audible(
                f,
                contents(aircraft@),
                (listener_lng, listener_lat),
                horizon_s,
            ),
{
    let listener: (Real, Real) = (listener_lng, listener_lat);
    let mut events: Vec<AudibleEvent> = Vec::new();
    let n: usize = aircraft.len();
    let ghost s = contents(aircraft@);
    let five = Real::whole(SAMPLE_STEP_S);
    let mut i: usize = 0;
    assert(contents(events@) =~= Seq::<EventView>::empty());
    assert(s.take(0) =~= Seq::<AircraftView>::empty());
    while i < n
        invariant
            is_unit(*unit),
            is_horizon(horizon_s),
            n == aircraft@.len(),
            i <= n,
            s == contents(aircraft@),
            five == Real::of(SAMPLE_STEP_S as int),
            forall|f: spec_fn(Formula) -> Real| #[trigger]
                computes(*unit, f) ==> contents(events@) == events_of(
                    f,
                    s.take(i as int),
                    listener,
                    horizon_s,
                ),
        decreases n - i,
    {
        let a = &aircraft[i];
        let ghost before = contents(events@);
        proof {
            assert(s.take(i + 1).drop_last() =~= s.take(i as int));
            assert(s.take(i + 1).last() == a@);
        }
        if !a.on_ground && !value_or_zero(a.velocity_ms).is_below(1) {
            let best = closest_sample(a, listener, horizon_s, unit);
            let late = unit(Formula::Difference { a: horizon_s, b: five });
            let at = Real::whole(best.at_s);
            if !late.is_at_most(at) {
                let source_db = Real::whole(source_db_at_1km(a));
                let slant_m = if best.slant_m.is_below(NEAREST_SOUND_M) {
                    Real::whole(NEAREST_SOUND_M)
                } else {
                    best.slant_m
                };
                let estimated_db = unit(Formula::Level { source_db, slant_m });
                if estimated_db.is_at_least(AUDIBLE_THRESHOLD_DB) {
                    let event = AudibleEvent {
                        icao24: a.icao24.clone(),
                        callsign: a.callsign.clone(),
                        closest_approach_in_s: at,
                        closest_distance_nm: unit(
                            Formula::NauticalMiles { metres: best.horizontal_m },
                        ),
                        closest_slant_m: best.slant_m,
                        estimated_db,
                    };
                    events.push(event);
                    assert(contents(events@) =~= before.push(event@));
                }
            }
        }
        i = i + 1;
    }
    assert(s.take(n as int) =~= s);
    let before = |x: &AudibleEvent, y: &AudibleEvent| -> (b: bool)
        ensures
            b == event_order()(x@, y@),
        { event_before(x, y) };
    stable_sort(events, &before, Ghost(event_order()))
}

/// No sample has a shorter line of sight than the closest one, and the earlier samples
/// have no line of sight of the same length.
pub proof fn closest_is_the_first_shortest(
    f: spec_fn(Formula) -> Real,
    a: AircraftView,
    listener: (Real, Real),
    n: nat,
    k: nat,
)
    requires
        k < n,
        SAMPLE_STEP_S * n <= u64::MAX,
    ensures
        ({
            let best = closest_of(f, a, listener, n);
            let sample = slant_at(f, a, listener, Real::of(SAMPLE_STEP_S * k));
            &&& !sample.lt(best.slant_m)
            &&& SAMPLE_STEP_S * k < best.at_s ==> !sample.le(best.slant_m)
        }),
    decreases n,
{
    let best = closest_of(f, a, listener, (n - 1) as nat);
    lemma_closest_bound(f, a, listener, (n - 1) as nat);
    if k < n - 1 {
        closest_is_the_first_shortest(f, a, listener, (n - 1) as nat, k);
    }
}

/// The closest sample is a number's distance away, and is one of the samples, or the
/// first where none is at a finite distance.
proof fn lemma_closest_bound(
    f: spec_fn(Formula) -> Real,
    a: AircraftView,
    listener: (Real, Real),
    n: nat,
)
    requires
        SAMPLE_STEP_S * n <= u64::MAX,
    ensures
        !closest_of(f, a, listener, n).slant_m.is_nan(),
        closest_of(f, a, listener, n).at_s == 0 || closest_of(f, a, listener, n).at_s
            <= SAMPLE_STEP_S * (n - 1),
    decreases n,
{
    if n > 0 {
        lemma_closest_bound(f, a, listener, (n - 1) as nat);
    }
}

/// What stands in the events before they are sorted.
proof fn lemma_events_of(
    f: spec_fn(Formula) -> Real,
    s: Seq<AircraftView>,
    listener: (Real, Real),
    horizon_s: Real,
    e: EventView,
)
    ensures
        events_of(f, s, listener, horizon_s).contains(e) <==> exists|i: int|
            0 <= i < s.len() && #[trigger] is_heard(f, s[i], listener, horizon_s) && e == event_at(
                f,
                s[i],
                closest_of(f, s[i], listener, samples_in(horizon_s)),
            ),
    decreases s.len(),
{
    if s.len() > 0 {
        let head = s.drop_last();
        lemma_events_of(f, head, listener, horizon_s, e);
        let last = event_at(
            f,
            s.last(),
            closest_of(f, s.last(), listener, samples_in(horizon_s)),
        );
        crate::order::lemma_push_members(events_of(f, head, listener, horizon_s), last, e);
        if events_of(f, head, listener, horizon_s).contains(e) {
            let i = choose|i: int|
                0 <= i < head.len() && #[trigger] is_heard(f, head[i], listener, horizon_s) && e
                    == event_at(
                    f,
                    head[i],
                    closest_of(f, head[i], listener, samples_in(horizon_s)),
                );
            assert(s[i] == head[i]);
        }
        assert forall|i: int|
            0 <= i < s.len() && #[trigger] is_heard(f, s[i], listener, horizon_s) && e == event_at(
                f,
                s[i],
                closest_of(f, s[i], listener, samples_in(horizon_s)),
            ) implies events_of(f, s, listener, horizon_s).contains(e) by {
            if i < s.len() - 1 {
                assert(head[i] == s[i]);
            }
        }
    }
}

/// The events reported are those of the aircraft that are heard, and no others.
pub proof fn events_are_of_the_heard(
    f: spec_fn(Formula) -> Real,
    s: Seq<AircraftView>,
    listener: (Real, Real),
    horizon_s: Real,
    e: EventView,
)
    ensures
        audible(f, s, listener, horizon_s).contains(e) <==> exists|i: int|
            0 <= i < s.len() && #[trigger] is_heard(f, s[i], listener, horizon_s) && e == event_at(
                f,
                s[i],
                closest_of(f, s[i], listener, samples_in(horizon_s)),
            ),
{
    lemma_events_of(f, s, listener, horizon_s, e);
    sorted_members(events_of(f, s, listener, horizon_s), e, event_order());
}

/// The aircraft that is closest first is reported first.
pub proof fn soonest_is_reported_first(
    f: spec_fn(Formula) -> Real,
    s: Seq<AircraftView>,
    listener: (Real, Real),
    horizon_s: Real,
)
    ensures
        forall|i: int, j: int|
            0 <= i < j < audible(f, s, listener, horizon_s).len() ==> audible(
                f,
                s,
                listener,
                horizon_s,
            )[i].closest_approach_in_s.worth() <= audible(
                f,
                s,
                listener,
                horizon_s,
            )[j].closest_approach_in_s.worth(),
{
    let le = event_order();
    assert(is_preorder(le));
    let events = events_of(f, s, listener, horizon_s);
    sorted_is_ordered(events, le);
    let out = sorted_by(events, le);
    assert forall|i: int, j: int| 0 <= i < j < out.len() implies out[i].closest_approach_in_s.worth()
        <= out[j].closest_approach_in_s.worth() by {
        assert(le(out[i], out[j]));
    }
}

/// The events of two lists before they are sorted are those of the first, then those of
/// the second.
proof fn lemma_events_join(
    f: spec_fn(Formula) -> Real,
    xs: Seq<AircraftView>,
    ys: Seq<AircraftView>,
    listener: (Real, Real),
    horizon_s: Real,
)
    ensures
        events_of(f, xs + ys, listener, horizon_s) == events_of(f, xs, listener, horizon_s)
            + events_of(f, ys, listener, horizon_s),
    decreases ys.len(),
{
    let first = events_of(f, xs, listener, horizon_s);
    if ys.len() == 0 {
        assert(xs + ys =~= xs);
        assert(first + events_of(f, ys, listener, horizon_s) =~= first);
    } else {
        let head = ys.drop_last();
        lemma_events_join(f, xs, head, listener, horizon_s);
        assert((xs + ys).drop_last() =~= xs + head);
        assert((xs + ys).last() == ys.last());
        let second = events_of(f, head, listener, horizon_s);
        let e = event_at(
            f,
            ys.last(),
            closest_of(f, ys.last(), listener, samples_in(horizon_s)),
        );
        assert((first + second).push(e) =~= first + second.push(e));
    }
}

/// The events of an aircraft depend on no other aircraft: those of two lists together are
/// those of each, joined and sorted so that events at the same time keep their places.
pub proof fn events_of_two_lists_are_joined(
    f: spec_fn(Formula) -> Real,
    xs: Seq<AircraftView>,
    ys: Seq<AircraftView>,
    listener: (Real, Real),
    horizon_s: Real,
)
    ensures
        audible(f, xs + ys, listener, horizon_s) == sorted_by(
            audible(f, xs, listener, horizon_s) + audible(f, ys, listener, horizon_s),
            event_order(),
        ),
{
    assert(is_preorder(event_order()));
    lemma_events_join(f, xs, ys, listener, horizon_s);
    sorted_join(
        events_of(f, xs, listener, horizon_s),
        events_of(f, ys, listener, horizon_s),
        event_order(),
    );
}

/// The closest approach of an aircraft that is heard lies within the horizon.
pub proof fn closest_approach_is_within_the_horizon(
    f: spec_fn(Formula) -> Real,
    a: AircraftView,
    listener: (Real, Real),
    horizon_s: Real,
)
    requires
        is_horizon(horizon_s),
        Real::of(0).le(horizon_s),
    ensures
        closest_of(f, a, listener, samples_in(horizon_s)).at_s * one() <= horizon_s.worth(),
{
    vstd::arithmetic::power2::lemma_pow2_pos(1074);
    crate::measure::lemma_zero_is_small(1);
    let n = samples_in(horizon_s);
    let w = horizon_s.worth();
    let d = (SAMPLE_STEP_S * one()) as int;
    let q = w / d;
    vstd::arithmetic::div_mod::lemma_fundamental_div_mod(w, d);
    vstd::arithmetic::div_mod::lemma_mod_bound(w, d);
    vstd::arithmetic::div_mod::lemma_div_pos_is_pos(w, d);
    assert(n == q + 1);
    assert((SAMPLE_STEP_S * q) * one() <= w) by (nonlinear_arith)
        requires
            w == d * q + w % d,
            w % d >= 0,
            d == SAMPLE_STEP_S * one(),
    ;
    assert(SAMPLE_STEP_S * q < HORIZON_LIMIT_S) by (nonlinear_arith)
        requires
            (SAMPLE_STEP_S * q) * one() <= w,
            w < HORIZON_LIMIT_S * one(),
            one() > 0,
    ;
    lemma_closest_bound(f, a, listener, n);
    let at = closest_of(f, a, listener, n).at_s as int;
    assert(at * one() <= (SAMPLE_STEP_S * q) * one()) by (nonlinear_arith)
        requires
            at <= SAMPLE_STEP_S * q,
            one() > 0,
    ;
}

/// A sample lies in a horizon exactly where the horizon reaches it.
proof fn lemma_samples(horizon_s: Real, n: nat)
    ensures
        n < samples_in(horizon_s) <==> horizon_s.at_least(SAMPLE_STEP_S * n),
{
    vstd::arithmetic::power2::lemma_pow2_pos(1074);
    let w = horizon_s.worth();
    let d = (SAMPLE_STEP_S * one()) as int;
    assert((SAMPLE_STEP_S * n) * one() == n * d) by (nonlinear_arith)
        requires
            d == SAMPLE_STEP_S * one(),
    ;
    if w >= 0 {
        vstd::arithmetic::div_mod::lemma_fundamental_div_mod(w, d);
        vstd::arithmetic::div_mod::lemma_mod_bound(w, d);
        vstd::arithmetic::div_mod::lemma_div_pos_is_pos(w, d);
        let q = w / d;
        assert(n * d <= w <==> n <= q) by (nonlinear_arith)
            requires
                w == d * q + w % d,
                0 <= w % d < d,
        ;
    } else {
        assert(n * d >= 0) by (nonlinear_arith)
            requires
                n >= 0,
                d >= 0,
        ;
    }
}

/// All samples of a horizon are 64-bit numbers of seconds.
proof fn lemma_samples_fit(horizon_s: Real)
    requires
        is_horizon(horizon_s),
    ensures
        SAMPLE_STEP_S * samples_in(horizon_s) <= u64::MAX,
{
    let n = samples_in(horizon_s);
    if n > 0 {
        lemma_samples(horizon_s, (n - 1) as nat);
        vstd::arithmetic::power2::lemma_pow2_pos(1074);
        let t = SAMPLE_STEP_S * (n - 1);
        assert(t < HORIZON_LIMIT_S) by (nonlinear_arith)
            requires
                t * one() <= horizon_s.worth(),
                horizon_s.worth() < HORIZON_LIMIT_S * one(),
                one() > 0,
        ;
    }
}

/// The closest sample is one of the samples, or none is at a finite distance.
proof fn lemma_closest_from(
    f: spec_fn(Formula) -> Real,
    a: AircraftView,
    listener: (Real, Real),
    n: nat,
)
    ensures
        closest_of(f, a, listener, n).slant_m == (Real {
            bits: (crate::measure::INFINITY_FIELD - 1) as u64,
        }) || exists|m: nat|
            m < n && closest_of(f, a, listener, n).slant_m == #[trigger] slant_at(
                f,
                a,
                listener,
                Real::of(SAMPLE_STEP_S * m),
            ),
    decreases n,
{
    if n > 0 {
        lemma_closest_from(f, a, listener, (n - 1) as nat);
    }
}

/// The first sample that no other undercuts is the closest one.
proof fn lemma_closest_is(
    f: spec_fn(Formula) -> Real,
    a: AircraftView,
    listener: (Real, Real),
    n: nat,
    k: nat,
)
    requires
        k < n,
        SAMPLE_STEP_S * n <= u64::MAX,
        slant_at(f, a, listener, Real::of(SAMPLE_STEP_S * k)).lt(
            Real { bits: (crate::measure::INFINITY_FIELD - 1) as u64 },
        ),
        forall|m: nat|
            m < n ==> !(#[trigger] slant_at(f, a, listener, Real::of(SAMPLE_STEP_S * m))).lt(
                slant_at(f, a, listener, Real::of(SAMPLE_STEP_S * k)),
            ),
        forall|m: nat|
            m < k ==> !(#[trigger] slant_at(f, a, listener, Real::of(SAMPLE_STEP_S * m))).le(
                slant_at(f, a, listener, Real::of(SAMPLE_STEP_S * k)),
            ),
    ensures
        closest_of(f, a, listener, n) == (Closest {
            slant_m: slant_at(f, a, listener, Real::of(SAMPLE_STEP_S * k)),
            horizontal_m: horizontal_at(f, a, listener, Real::of(SAMPLE_STEP_S * k)),
            at_s: (SAMPLE_STEP_S * k) as u64,
        }),
    decreases n,
{
    if k < n - 1 {
        lemma_closest_is(f, a, listener, (n - 1) as nat, k);
        assert(!slant_at(f, a, listener, Real::of(SAMPLE_STEP_S * ((n - 1) as nat))).lt(
            slant_at(f, a, listener, Real::of(SAMPLE_STEP_S * k)),
        ));
    } else {
        lemma_closest_from(f, a, listener, k);
        lemma_closest_bound(f, a, listener, k);
    }
}

proof fn lemma_closest_none(
    f: spec_fn(Formula) -> Real,
    a: AircraftView,
    listener: (Real, Real),
    n: nat,
)
    requires
        forall|m: nat|
            m < n ==> !(#[trigger] slant_at(f, a, listener, Real::of(SAMPLE_STEP_S * m))).lt(
                Real { bits: (crate::measure::INFINITY_FIELD - 1) as u64 },
            ),
    ensures
        closest_of(f, a, listener, n) == (Closest {
            slant_m: Real { bits: (crate::measure::INFINITY_FIELD - 1) as u64 },
            horizontal_m: Real { bits: (crate::measure::INFINITY_FIELD - 1) as u64 },
            at_s: 0,
        }),
    decreases n,
{
    if n > 0 {
        lemma_closest_none(f, a, listener, (n - 1) as nat);
        assert(!slant_at(f, a, listener, Real::of(SAMPLE_STEP_S * ((n - 1) as nat))).lt(
            Real { bits: (crate::measure::INFINITY_FIELD - 1) as u64 },
        ));
    }
}

/// A list of one aircraft has its event, or none.
proof fn lemma_single_event(
    f: spec_fn(Formula) -> Real,
    a: AircraftView,
    listener: (Real, Real),
    horizon_s: Real,
)
    ensures
        audible(f, seq![a], listener, horizon_s) == (if is_heard(f, a, listener, horizon_s) {
            seq![event_at(f, a, closest_of(f, a, listener, samples_in(horizon_s)))]
        } else {
            Seq::empty()
        }),
{
    reveal_with_fuel(events_of, 2);
    reveal_with_fuel(sorted_by, 2);
    reveal_with_fuel(crate::order::placed, 2);
    assert(seq![a].drop_last() =~= Seq::<AircraftView>::empty());
    let events = events_of(f, seq![a], listener, horizon_s);
    if is_heard(f, a, listener, horizon_s) {
        let e = event_at(f, a, closest_of(f, a, listener, samples_in(horizon_s)));
        assert(events =~= seq![e]);
        assert(events.drop_last() =~= Seq::<EventView>::empty());
        assert(sorted_by(events, event_order()) =~= seq![e]);
    }
}

/// An aircraft on the ground, or slower than 1 m/s, is not heard, wherever it is.
pub proof fn resting_aircraft_are_not_heard(
    f: spec_fn(Formula) -> Real,
    a: AircraftView,
    listener: (Real, Real),
    horizon_s: Real,
    speed: Real,
)
    requires
        speed == (match a.velocity_ms {
            Some(x) => x,
            None => Real { bits: 0 },
        }),
        a.on_ground || speed.below(1),
    ensures
        audible(f, seq![a], listener, horizon_s).len() == 0,
{
    crate::measure::lemma_zero_is_small(1);
    lemma_single_event(f, a, listener, horizon_s);
}

/// What is reported of one airborne aircraft that moves. Its place is reckoned every five
/// seconds from now to the end of the horizon: `distance(m)` is how far it is from the
/// listener over ground at the `m`-th time, and `slant(m)` along the line of sight. The
/// `k`-th time is the first at which it is closest. The source is taken for a helicopter of
/// 70 dB below 30 m/s and 1500 m, for a small aircraft of 62 dB where the callsign is a tail
/// number of at most seven bytes and the altitude is below 3000 m, and for a jet of 78 dB
/// otherwise; an unknown altitude counts as 10000 m here. The aircraft is reported exactly
/// where its level from there, or from 100 m where it comes closer, is at least 55 dB, and
/// the time lies more than five seconds before the end of the horizon.
pub proof fn level_at_the_closest_approach_decides(
    f: spec_fn(Formula) -> Real,
    a: AircraftView,
    listener: (Real, Real),
    horizon_s: Real,
    heading: Real,
    speed: Real,
    distance: spec_fn(nat) -> Real,
    slant: spec_fn(nat) -> Real,
    k: nat,
    level: int,
)
    requires
        !horizon_s.at_least(HORIZON_LIMIT_S as int),
        !a.on_ground,
        heading == (match a.heading {
            Some(x) => x,
            None => Real { bits: 0 },
        }),
        speed == (match a.velocity_ms {
            Some(x) => x,
            None => Real { bits: 0 },
        }),
        !speed.below(1),
        forall|m: nat| #[trigger]
            distance(m) == f(
                Formula::Distance {
                    lat1: f(
                        Formula::ReckonedLat {
                            lng: a.longitude,
                            lat: a.latitude,
                            heading_deg: heading,
                            speed_ms: speed,
                            dt_s: Real::of(5int * m),
                        },
                    ),
                    lng1: f(
                        Formula::ReckonedLng {
                            lng: a.longitude,
                            lat: a.latitude,
                            heading_deg: heading,
                            speed_ms: speed,
                            dt_s: Real::of(5int * m),
                        },
                    ),
                    lat2: listener.1,
                    lng2: listener.0,
                },
            ),
        forall|m: nat| #[trigger]
            slant(m) == f(
                Formula::Slant {
                    horizontal_m: distance(m),
                    vertical_m: match a.altitude_m {
                        Some(x) => x,
                        None => Real { bits: 0 },
                    },
                },
            ),
        horizon_s.at_least(5int * k),
        slant(k).lt(Real { bits: 0x7fef_ffff_ffff_ffff }),
        forall|m: nat| horizon_s.at_least(5int * m) ==> !(#[trigger] slant(m)).lt(slant(k)),
        forall|m: nat| m < k ==> !(#[trigger] slant(m)).le(slant(k)),
        level == ({
            let altitude = match a.altitude_m {
                Some(x) => x,
                None => Real::of(10_000),
            };
            if speed.below(30) && altitude.below(1500) {
                70int
            } else if a.callsign is Some && a.callsign->0.len() > 0 && a.callsign->0[0] == 'N'
                && encode_utf8(a.callsign->0).len() <= 7 && altitude.below(3000) {
                62int
            } else {
                78int
            }
        }),
    ensures
        ({
            let from = if slant(k).below(100) {
                Real::of(100)
            } else {
                slant(k)
            };
            let db = f(Formula::Level { source_db: Real::of(level), slant_m: from });
            let out = audible(f, seq![a], listener, horizon_s);
            if db.at_least(55) && !f(Formula::Difference { a: horizon_s, b: Real::of(5) }).le(
                Real::of(5int * k),
            ) {
                out == seq![
                    EventView {
                        icao24: a.icao24,
                        callsign: a.callsign,
                        closest_approach_in_s: Real::of(5int * k),
                        closest_distance_nm: f(Formula::NauticalMiles { metres: distance(k) }),
                        closest_slant_m: slant(k),
                        estimated_db: db,
                    },
                ]
            } else {
                out.len() == 0
            }
        }),
{
    crate::measure::lemma_zero_is_small(1);
    let n = samples_in(horizon_s);
    assert forall|m: nat| #[trigger]
        slant_at(f, a, listener, Real::of(SAMPLE_STEP_S * m)) == slant(m) && horizontal_at(
            f,
            a,
            listener,
            Real::of(SAMPLE_STEP_S * m),
        ) == distance(m) by {
        assert(distance(m) == distance(m));
    }
    lemma_samples(horizon_s, k);
    assert forall|m: nat| m < n implies !(#[trigger] slant_at(
        f,
        a,
        listener,
        Real::of(SAMPLE_STEP_S * m),
    )).lt(slant_at(f, a, listener, Real::of(SAMPLE_STEP_S * k))) by {
        lemma_samples(horizon_s, m);
        assert(!slant(m).lt(slant(k)));
    }
    assert forall|m: nat| m < k implies !(#[trigger] slant_at(
        f,
        a,
        listener,
        Real::of(SAMPLE_STEP_S * m),
    )).le(slant_at(f, a, listener, Real::of(SAMPLE_STEP_S * k))) by {
        assert(!slant(m).le(slant(k)));
    }
    lemma_samples_fit(horizon_s);
    lemma_closest_is(f, a, listener, n, k);
    lemma_single_event(f, a, listener, horizon_s);
}

/// An airborne aircraft that moves, of which no reckoned place is at a finite distance, is
/// judged by the largest finite distance, as of now.
pub proof fn aircraft_without_a_place_are_far_away(
    f: spec_fn(Formula) -> Real,
    a: AircraftView,
    listener: (Real, Real),
    horizon_s: Real,
    heading: Real,
    speed: Real,
    slant: spec_fn(nat) -> Real,
    far: Real,
    level: int,
)
    requires
        !a.on_ground,
        !speed.below(1),
        heading == (match a.heading {
            Some(x) => x,
            None => Real { bits: 0 },
        }),
        speed == (match a.velocity_ms {
            Some(x) => x,
            None => Real { bits: 0 },
        }),
        far == (Real { bits: 0x7fef_ffff_ffff_ffff }),
        forall|m: nat| #[trigger]
            slant(m) == f(
                Formula::Slant {
                    horizontal_m: f(
                        Formula::Distance {
                            lat1: f(
                                Formula::ReckonedLat {
                                    lng: a.longitude,
                                    lat: a.latitude,
                                    heading_deg: heading,
                                    speed_ms: speed,
                                    dt_s: Real::of(5int * m),
                                },
                            ),
                            lng1: f(
                                Formula::ReckonedLng {
                                    lng: a.longitude,
                                    lat: a.latitude,
                                    heading_deg: heading,
                                    speed_ms: speed,
                                    dt_s: Real::of(5int * m),
                                },
                            ),
                            lat2: listener.1,
                            lng2: listener.0,
                        },
                    ),
                    vertical_m: match a.altitude_m {
                        Some(x) => x,
                        None => Real { bits: 0 },
                    },
                },
            ),
        forall|m: nat| horizon_s.at_least(5int * m) ==> !(#[trigger] slant(m)).lt(far),
        level == ({
            let altitude = match a.altitude_m {
                Some(x) => x,
                None => Real::of(10_000),
            };
            if speed.below(30) && altitude.below(1500) {
                70int
            } else if a.callsign is Some && a.callsign->0.len() > 0 && a.callsign->0[0] == 'N'
                && encode_utf8(a.callsign->0).len() <= 7 && altitude.below(3000) {
                62int
            } else {
                78int
            }
        }),
    ensures
        ({
            let db = f(Formula::Level { source_db: Real::of(level), slant_m: far });
            let out = audible(f, seq![a], listener, horizon_s);
            if db.at_least(55) && !f(Formula::Difference { a: horizon_s, b: Real::of(5) }).le(
                Real { bits: 0 },
            ) {
                out == seq![
                    EventView {
                        icao24: a.icao24,
                        callsign: a.callsign,
                        closest_approach_in_s: Real { bits: 0 },
                        closest_distance_nm: f(Formula::NauticalMiles { metres: far }),
                        closest_slant_m: far,
                        estimated_db: db,
                    },
                ]
            } else {
                out.len() == 0
            }
        }),
{
    crate::measure::lemma_zero_is_small(1);
    crate::measure::lemma_largest_is_large();
    let n = samples_in(horizon_s);
    assert forall|m: nat| m < n implies !(#[trigger] slant_at(
        f,
        a,
        listener,
        Real::of(SAMPLE_STEP_S * m),
    )).lt(far) by {
        lemma_samples(horizon_s, m);
        assert(!slant(m).lt(far));
    }
    lemma_closest_none(f, a, listener, n);
    lemma_single_event(f, a, listener, horizon_s);
}

/// The events are in the order of their times, and there are no more than aircraft.
pub proof fn events_are_in_order_and_one_for_an_aircraft(
    f: spec_fn(Formula) -> Real,
    s: Seq<AircraftView>,
    listener: (Real, Real),
    horizon_s: Real,
    i: int,
    j: int,
)
    requires
        0 <= i < j < audible(f, s, listener, horizon_s).len(),
    ensures
        audible(f, s, listener, horizon_s).len() <= s.len(),
        !audible(f, s, listener, horizon_s)[j].closest_approach_in_s.lt(
            audible(f, s, listener, horizon_s)[i].closest_approach_in_s,
        ),
{
    soonest_is_reported_first(f, s, listener, horizon_s);
    assert(is_preorder(event_order()));
    sorted_is_ordered(events_of(f, s, listener, horizon_s), event_order());
    lemma_events_count(f, s, listener, horizon_s);
}

proof fn lemma_events_count(
    f: spec_fn(Formula) -> Real,
    s: Seq<AircraftView>,
    listener: (Real, Real),
    horizon_s: Real,
)
    ensures
        events_of(f, s, listener, horizon_s).len() <= s.len(),
    decreases s.len(),
{
    if s.len() > 0 {
        lemma_events_count(f, s.drop_last(), listener, horizon_s);
    }
}

} // verus!
