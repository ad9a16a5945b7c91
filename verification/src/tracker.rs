//! From the answers of the feeds to a snapshot of the airspace.
//!
//! The tracker holds what is kept between two rounds: the tracks, and the seconds to wait
//! before the next round. A round is lost only where both feeds fail.

use crate::acoustics::{audible, predict_audible, ACOUSTIC_HORIZON_S};
use crate::analysis::{behavior_of, classify};
use crate::conflicts::{conflicts, detect_conflicts};
use crate::formula::{computes, is_unit, Formula};
use crate::fusion::{fuse, fused};
use crate::history::{updated, HistoryMap};
use crate::measure::Real;
use crate::text::{contains, occurs_in};
use crate::types::{
    contents, opt_weather, Aircraft, AircraftView, Behavior, RawAircraft, RawView, Snapshot,
    SnapshotView, TrackPoint, Weather, WeatherView, LISTENER_LAT_BITS, LISTENER_LNG_BITS,
};
use vstd::prelude::*;

verus! {

/// Seconds to wait before a round when all is well.
pub const BASE_WAIT_S: u64 = 10;

/// Most seconds to wait before a round.
pub const MAX_WAIT_S: u64 = 300;

/// How far ahead conflicts are looked for, in seconds.
pub const CONFLICT_HORIZON_S: u64 = 60;

/// Longitude and latitude of the listener.
pub open spec fn listener_place() -> (Real, Real) {
    (Real { bits: LISTENER_LNG_BITS }, Real { bits: LISTENER_LAT_BITS })
}

/// Longitude and latitude of the listener.
pub fn listener() -> (r: (Real, Real))
    ensures
        r == listener_place(),
{
    (Real { bits: LISTENER_LNG_BITS }, Real { bits: LISTENER_LAT_BITS })
}

/// Twice the seconds, but not more than the most.
pub open spec fn longer_wait(wait_s: u64) -> u64 {
    if 2 * wait_s > MAX_WAIT_S {
        MAX_WAIT_S
    } else {
        (2 * wait_s) as u64
    }
}

/// The seconds to wait after a round that was lost, by the error of OpenSky: longer
/// where it speaks of the status for too many requests.
pub open spec fn wait_after_loss(wait_s: u64, opensky_error: Seq<char>) -> u64 {
    if occurs_in("429"@, opensky_error) {
        longer_wait(wait_s)
    } else {
        wait_s
    }
}

/// The seconds to wait after a round that was lost.
pub fn next_wait(wait_s: u64, opensky_error: &str) -> (r: u64)
    ensures
        r == wait_after_loss(wait_s, opensky_error@),
{
    if contains(opensky_error, "429") {
        if wait_s > MAX_WAIT_S / 2 {
            MAX_WAIT_S
        } else {
            wait_s * 2
        }
    } else {
        wait_s
    }
}

/// What one feed gave: seconds since the epoch, and the aircraft.
pub type Answer = Result<(i64, Vec<RawAircraft>), String>;

/// The aircraft of an answer; none where the feed failed.
pub open spec fn answer_aircraft(a: Answer) -> Seq<RawView> {
    match a {
        Ok(batch) => contents(batch.1@),
        Err(_) => Seq::empty(),
    }
}

/// The time of an answer; zero where the feed failed.
pub open spec fn answer_time(a: Answer) -> i64 {
    match a {
        Ok(batch) => batch.0,
        Err(_) => 0,
    }
}

/// An aircraft with what its track tells.
pub open spec fn described(
    f: spec_fn(Formula) -> Real,
    r: RawView,
    tracks: Map<Seq<char>, Seq<TrackPoint>>,
) -> AircraftView {
    AircraftView {
        icao24: r.icao24,
        callsign: r.callsign,
        origin_country: r.origin_country,
        longitude: r.longitude,
        latitude: r.latitude,
        altitude_m: r.altitude_m,
        velocity_ms: r.velocity_ms,
        heading: r.heading,
        on_ground: r.on_ground,
        behavior: if tracks.dom().contains(r.icao24) {
            behavior_of(tracks[r.icao24], f)
        } else {
            Behavior::Enroute
        },
        trail: if tracks.dom().contains(r.icao24) {
            trail_of(tracks[r.icao24])
        } else {
            seq![(r.longitude, r.latitude)]
        },
    }
}

/// Longitude and latitude of the observations of a track.
pub open spec fn trail_of(points: Seq<TrackPoint>) -> Seq<(Real, Real)> {
    points.map_values(|p: TrackPoint| (p.lng, p.lat))
}

/// The aircraft of a list with what their tracks tell.
pub open spec fn described_all(
    f: spec_fn(Formula) -> Real,
    raws: Seq<RawView>,
    tracks: Map<Seq<char>, Seq<TrackPoint>>,
) -> Seq<AircraftView> {
    raws.map_values(|r: RawView| described(f, r, tracks))
}

/// The snapshot that is made of a list of aircraft and their tracks.
pub open spec fn snapshot_content(
    f: spec_fn(Formula) -> Real,
    raws: Seq<RawView>,
    tracks: Map<Seq<char>, Seq<TrackPoint>>,
    time: i64,
    fetched_at_ms: u128,
    weather: Option<WeatherView>,
) -> SnapshotView {
    let aircraft = described_all(f, raws, tracks);
    SnapshotView {
        time,
        fetched_at_ms,
        aircraft,
        conflicts: conflicts(f, aircraft, Real::of(CONFLICT_HORIZON_S as int)),
        audible: audible(f, aircraft, listener_place(), Real::of(ACOUSTIC_HORIZON_S as int)),
        listener: listener_place(),
        weather,
    }
}

/// Longitude and latitude of the observations of a track.
fn trail(points: &std::collections::VecDeque<TrackPoint>) -> (r: Vec<(Real, Real)>)
    ensures
        r@ == trail_of(points@),
{
    let mut out: Vec<(Real, Real)> = Vec::new();
    let n: usize = points.len();
    let mut i: usize = 0;
    while i < n
        invariant
            n == points@.len(),
            i <= n,
            out@ =~= trail_of(points@).take(i as int),
        decreases n - i,
    {
        let p: TrackPoint = points[i];
        out.push((p.lng, p.lat));
        i = i + 1;
    }
    assert(trail_of(points@).take(n as int) =~= trail_of(points@));
    out
}

/// An aircraft with what its track tells.
pub fn describe<U: Fn(Formula) -> Real>(r: RawAircraft, history: &HistoryMap, unit: &U) -> (out:
    Aircraft)
    requires
        is_unit(*unit),
        history.wf(),
    ensures
        forall|f: spec_fn(Formula) -> Real| #[trigger]
            computes(*unit, f) ==> out@ == described(f, r@, history@),
{
    let (behavior, trail): (Behavior, Vec<(Real, Real)>) = match history.get(&r.icao24) {
        Some(points) => (classify(points, unit), trail(points)),
        None => {
            let mut here: Vec<(Real, Real)> = Vec::new();
            here.push((r.longitude, r.latitude));
            assert(here@ =~= seq![(r.longitude, r.latitude)]);
            (Behavior::Enroute, here)
        },
    };
    Aircraft {
        icao24: r.icao24,
        callsign: r.callsign,
        origin_country: r.origin_country,
        longitude: r.longitude,
        latitude: r.latitude,
        altitude_m: r.altitude_m,
        velocity_ms: r.velocity_ms,
        heading: r.heading,
        on_ground: r.on_ground,
        behavior,
        trail,
    }
}

/// The aircraft of a list with what their tracks tell.
pub fn describe_all<U: Fn(Formula) -> Real>(
    raws: Vec<RawAircraft>,
    history: &HistoryMap,
    unit: &U,
) -> (r: Vec<Aircraft>)
    requires
        is_unit(*unit),
        history.wf(),
    ensures
        forall|f: spec_fn(Formula) -> Real| #[trigger]
            computes(*unit, f) ==> contents(r@) == described_all(f, contents(raws@), history@),
{
    let mut out: Vec<Aircraft> = Vec::new();
    let ghost all = contents(raws@);
    for r in it: raws
        invariant
            is_unit(*unit),
            history.wf(),
            all == contents(it.seq()),
            forall|f: spec_fn(Formula) -> Real| #[trigger]
                computes(*unit, f) ==> contents(out@) =~= described_all(f, all, history@).take(
                    it.index(),
                ),
    {
        let ghost before = contents(out@);
        let ghost k = it.index();
        let a = describe(r, history, unit);
        out.push(a);
        assert(contents(out@) =~= before.push(a@));
        assert forall|f: spec_fn(Formula) -> Real| #[trigger] computes(*unit, f) implies contents(
            out@,
        ) =~= described_all(f, all, history@).take(k + 1) by {
            assert(all[k] == r@);
            let d = described_all(f, all, history@);
            assert(d.take(k + 1) =~= d.take(k).push(d[k]));
        }
    }
    assert forall|f: spec_fn(Formula) -> Real| #[trigger] computes(*unit, f) implies contents(out@)
        == described_all(f, all, history@) by {
        let d = described_all(f, all, history@);
        assert(d.take(d.len() as int) =~= d);
    }
    out
}

/// What is kept between two rounds.
#[derive(Debug)]
pub struct Tracker {
    pub wait_s: u64,
    pub history: HistoryMap,
}

/// The later of two times.
pub open spec fn later(a: i64, b: i64) -> i64 {
    if a >= b {
        a
    } else {
        b
    }
}

impl Tracker {
    /// The tracks are well formed, and the wait is within its limits.
    pub open spec fn wf(&self) -> bool {
        self.history.wf() && BASE_WAIT_S <= self.wait_s <= MAX_WAIT_S
    }

    /// A tracker before the first round.
    pub fn new() -> (r: Tracker)
        ensures
            r.wf(),
            r.wait_s == BASE_WAIT_S,
            r.history@ == Map::<Seq<char>, Seq<TrackPoint>>::empty(),
    {
        Tracker { wait_s: BASE_WAIT_S, history: HistoryMap::new() }
    }

    /// One round: takes what the feeds gave, and makes a snapshot of it unless both
    /// failed. `observed_at_ms` is the time of the observations.
    pub fn round<U: Fn(Formula) -> Real>(
        &mut self,
        adsb: &Answer,
        opensky: &Answer,
        observed_at_ms: u64,
        fetched_at_ms: u128,
        weather: Option<Weather>,
        unit: &U,
    ) -> (r: Option<Snapshot>)
        requires
            old(self).wf(),
            is_unit(*unit),
        ensures
            final(self).wf(),
            r is None <==> adsb is Err && opensky is Err,
            r is None ==> final(self).history@ == old(self).history@,
            r is None ==> final(self).wait_s == wait_after_loss(
                old(self).wait_s,
                opensky->Err_0@,
            ),
            r is Some ==> final(self).wait_s == BASE_WAIT_S,
            r is Some ==> final(self).history@ == updated(
                old(self).history@,
                fused(answer_aircraft(*opensky), answer_aircraft(*adsb)),
                observed_at_ms,
            ),
            forall|f: spec_fn(Formula) -> Real|
                r is Some && #[trigger] computes(*unit, f) ==> r->0@ == snapshot_content(
                    f,
                    fused(answer_aircraft(*opensky), answer_aircraft(*adsb)),
                    final(self).history@,
                    later(answer_time(*opensky), answer_time(*adsb)),
                    fetched_at_ms,
                    opt_weather(weather),
                ),
    {
        let nothing: Vec<RawAircraft> = Vec::new();
        assert(contents(nothing@) =~= Seq::<RawView>::empty());
        let (opensky_time, opensky_raws): (i64, &Vec<RawAircraft>) = match opensky {
            Ok(batch) => (batch.0, &batch.1),
            Err(e) => {
                if adsb.is_err() {
                    self.wait_s = next_wait(self.wait_s, e.as_str());
                    return None;
                }
                (0, &nothing)
            },
        };
        let (adsb_time, adsb_raws): (i64, &Vec<RawAircraft>) = match adsb {
            Ok(batch) => (batch.0, &batch.1),
            Err(_) => (0, &nothing),
        };
        self.wait_s = BASE_WAIT_S;
        let raws = fuse(opensky_raws.as_slice(), adsb_raws.as_slice());
        self.history.update(raws.as_slice(), observed_at_ms);
        let aircraft = describe_all(raws, &self.history, unit);
        let conflicts = detect_conflicts(
            aircraft.as_slice(),
            Real::whole(CONFLICT_HORIZON_S),
            unit,
        );
        let horizon_s = Real::whole(ACOUSTIC_HORIZON_S);
        proof {
            crate::acoustics::lemma_is_horizon(horizon_s, ACOUSTIC_HORIZON_S as int);
        }
        let (lng, lat): (Real, Real) = listener();
        let audible = predict_audible(aircraft.as_slice(), lng, lat, horizon_s, unit);
        let time: i64 = if opensky_time >= adsb_time {
            opensky_time
        } else {
            adsb_time
        };
        Some(
            Snapshot {
                time,
                fetched_at_ms,
                aircraft,
                conflicts,
                audible,
                listener: listener(),
                weather,
            },
        )
    }
}

/// The seconds to wait after a number of rounds in a row that were lost to too many
/// requests.
pub open spec fn wait_after_limits(wait_s: u64, rounds: nat) -> u64
    decreases rounds,
{
    if rounds == 0 {
        wait_s
    } else {
        longer_wait(wait_after_limits(wait_s, (rounds - 1) as nat))
    }
}

/// From the shortest wait on, every round that is lost to too many requests doubles the
/// wait until it reaches five minutes.
pub proof fn limits_double_the_wait(rounds: nat)
    ensures
        wait_after_limits(BASE_WAIT_S, rounds) == (if rounds <= 4 {
            BASE_WAIT_S * vstd::arithmetic::power2::pow2(rounds)
        } else {
            MAX_WAIT_S as int
        }),
    decreases rounds,
{
    vstd::arithmetic::power2::lemma2_to64();
    if rounds > 0 {
        limits_double_the_wait((rounds - 1) as nat);
    }
}

/// An answer of OpenSky with the status for too many requests lengthens the wait where
/// the other feed failed too.
pub proof fn rate_limit_lengthens_the_wait(wait_s: u64, status_line: Seq<char>, body: Seq<char>)
    ensures
        wait_after_loss(wait_s, crate::opensky::status_message(429, status_line, body))
            == longer_wait(wait_s),
{
    reveal_strlit("429");
    reveal_strlit("opensky http 429 rate limited: ");
    let message = crate::opensky::status_message(429, status_line, body);
    assert(message.subrange(13, 13int + "429"@.len()) =~= "429"@);
}

/// The trail of every aircraft of a snapshot ends where the aircraft is, and has no more
/// places than a track has observations.
pub proof fn trails_end_at_the_aircraft(
    f: spec_fn(Formula) -> Real,
    opensky: Seq<RawView>,
    adsb: Seq<RawView>,
    before: Map<Seq<char>, Seq<TrackPoint>>,
    observed_at_ms: u64,
    i: int,
)
    requires
        0 <= i < fused(opensky, adsb).len(),
    ensures
        ({
            let raws = fused(opensky, adsb);
            let a = described_all(f, raws, updated(before, raws, observed_at_ms))[i];
            &&& 0 < a.trail.len() <= crate::types::HISTORY_MAX
            &&& a.trail.last() == (a.longitude, a.latitude)
        }),
{
    let raws = fused(opensky, adsb);
    let tracks = updated(before, raws, observed_at_ms);
    crate::fusion::fusion_by_address(opensky, adsb, raws[i].icao24);
    crate::history::track_grows_at_its_end(before, raws, observed_at_ms, i);
    crate::history::tracks_are_of_those_in_sight(before, raws, observed_at_ms);
    let points = tracks[raws[i].icao24];
    assert(points.len() > 0);
    assert(points.last() == crate::opensky::track_point(raws[i], observed_at_ms));
}

/// The wait is ten seconds when all is well. After a round that was lost it stays, or is
/// doubled up to 300 seconds where the error of OpenSky speaks of 429.
pub proof fn waits_lie_between_ten_seconds_and_five_minutes(wait_s: u64, e: Seq<char>)
    ensures
        BASE_WAIT_S == 10,
        occurs_in("429"@, e) ==> wait_after_loss(wait_s, e) == (if wait_s >= 150 {
            300
        } else {
            2 * wait_s
        }),
        !occurs_in("429"@, e) ==> wait_after_loss(wait_s, e) == wait_s,
        10 <= wait_s <= 300 ==> 10 <= wait_after_loss(wait_s, e) <= 300,
{
}

/// A feed that answered gives its aircraft and its time, one that failed gives no aircraft
/// and the time zero; of two times the later one is taken.
pub proof fn answers_give_aircraft_and_time(a: Answer, x: i64, y: i64)
    ensures
        a matches Ok(batch) ==> answer_aircraft(a) == contents(batch.1@) && answer_time(a)
            == batch.0,
        a is Err ==> answer_aircraft(a).len() == 0 && answer_time(a) == 0,
        later(x, y) >= x && later(x, y) >= y && (later(x, y) == x || later(x, y) == y),
{
}

/// An aircraft of a snapshot is what the report says, with the behavior that its track tells
/// and the places of its track, oldest first. Without a track it is en route where it is.
pub proof fn described_aircraft_repeat_the_report(
    f: spec_fn(Formula) -> Real,
    raws: Seq<RawView>,
    tracks: Map<Seq<char>, Seq<TrackPoint>>,
    i: int,
)
    requires
        0 <= i < raws.len(),
    ensures
        described_all(f, raws, tracks).len() == raws.len(),
        ({
            let a = described_all(f, raws, tracks)[i];
            let r = raws[i];
            &&& a.icao24 == r.icao24
            &&& a.callsign == r.callsign
            &&& a.origin_country == r.origin_country
            &&& a.longitude == r.longitude
            &&& a.latitude == r.latitude
            &&& a.altitude_m == r.altitude_m
            &&& a.velocity_ms == r.velocity_ms
            &&& a.heading == r.heading
            &&& a.on_ground == r.on_ground
            &&& tracks.dom().contains(r.icao24) ==> {
                &&& a.behavior == behavior_of(tracks[r.icao24], f)
                &&& a.trail.len() == tracks[r.icao24].len()
                &&& forall|j: int|
                    0 <= j < a.trail.len() ==> (#[trigger] a.trail[j]).0 == tracks[r.icao24][j].lng
                        && a.trail[j].1 == tracks[r.icao24][j].lat
            }
            &&& !tracks.dom().contains(r.icao24) ==> {
                &&& a.behavior is Enroute
                &&& a.trail.len() == 1
                &&& a.trail[0] == (r.longitude, r.latitude)
            }
        }),
{
}

/// A snapshot tells the conflicts of the next 60 seconds and what will be heard in the next
/// 240 seconds at 90.628 degrees west and 30.063 degrees north, for the aircraft that it
/// lists, and carries the time, the moment and the weather that were given.
pub proof fn snapshots_look_ahead_from_the_refinery(
    f: spec_fn(Formula) -> Real,
    raws: Seq<RawView>,
    tracks: Map<Seq<char>, Seq<TrackPoint>>,
    time: i64,
    fetched_at_ms: u128,
    weather: Option<WeatherView>,
)
    ensures
        ({
            let s = snapshot_content(f, raws, tracks, time, fetched_at_ms, weather);
            let place = (
                Real { bits: 0xc056_a831_26e9_78d5 },
                Real { bits: 0x403e_1020_c49b_a5e3 },
            );
            &&& s.aircraft == described_all(f, raws, tracks)
            &&& s.conflicts == conflicts(f, s.aircraft, Real::of(60))
            &&& s.audible == audible(f, s.aircraft, place, Real::of(240))
            &&& s.listener == place
            &&& s.time == time
            &&& s.fetched_at_ms == fetched_at_ms
            &&& s.weather == weather
        }),
{
}

} // verus!
