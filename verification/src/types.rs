//! What the feeds report and what is made of it.

use crate::measure::Real;
use crate::text::opt_text;
use vstd::prelude::*;

verus! {

/// Length of an aircraft's track: about six minutes at one observation in ten seconds.
pub const HISTORY_MAX: usize = 36;

/// How many narrations are remembered.
pub const RECENT_NARRATIONS_MAX: usize = 5;

/// Longitude of the refinery at Garyville, -90.628 degrees, as a bit pattern.
pub const LISTENER_LNG_BITS: u64 = 0xc056_a831_26e9_78d5;

/// Latitude of the refinery at Garyville, 30.063 degrees, as a bit pattern.
pub const LISTENER_LAT_BITS: u64 = 0x403e_1020_c49b_a5e3;

/// One observation in the track of an aircraft.
#[derive(Debug, Clone, Copy, PartialEq, Eq, Structural)]
pub struct TrackPoint {
    pub time_ms: u64,
    pub lng: Real,
    pub lat: Real,
    pub altitude_m: Option<Real>,
    pub velocity_ms: Option<Real>,
    pub heading: Option<Real>,
    pub on_ground: bool,
}

/// What an aircraft is doing.
#[derive(Debug, Clone, Copy, PartialEq, Eq, Hash, Structural)]
pub enum Behavior {
    Cruise,
    Approach,
    Holding,
    Hovering,
    Climbing,
    Descending,
    Taxiing,
    Enroute,
}

/// An aircraft as a feed reports it, without behavior and trail.
#[derive(Debug)]
pub struct RawAircraft {
    pub icao24: String,
    pub callsign: Option<String>,
    pub origin_country: String,
    pub longitude: Real,
    pub latitude: Real,
    pub altitude_m: Option<Real>,
    pub velocity_ms: Option<Real>,
    pub heading: Option<Real>,
    pub on_ground: bool,
}

/// The content of a `RawAircraft`.
pub struct RawView {
    pub icao24: Seq<char>,
    pub callsign: Option<Seq<char>>,
    pub origin_country: Seq<char>,
    pub longitude: Real,
    pub latitude: Real,
    pub altitude_m: Option<Real>,
    pub velocity_ms: Option<Real>,
    pub heading: Option<Real>,
    pub on_ground: bool,
}

impl View for RawAircraft {
    type V = RawView;

    open spec fn view(&self) -> RawView {
        RawView {
            icao24: self.icao24@,
            callsign: opt_text(self.callsign),
            origin_country: self.origin_country@,
            longitude: self.longitude,
            latitude: self.latitude,
            altitude_m: self.altitude_m,
            velocity_ms: self.velocity_ms,
            heading: self.heading,
            on_ground: self.on_ground,
        }
    }
}

impl Clone for RawAircraft {
    fn clone(&self) -> (r: Self)
        ensures
            r == *self,
    {
        RawAircraft {
            icao24: self.icao24.clone(),
            callsign: self.callsign.clone(),
            origin_country: self.origin_country.clone(),
            longitude: self.longitude,
            latitude: self.latitude,
            altitude_m: self.altitude_m,
            velocity_ms: self.velocity_ms,
            heading: self.heading,
            on_ground: self.on_ground,
        }
    }
}

/// An aircraft with what was made of its track.
#[derive(Debug)]
pub struct Aircraft {
    pub icao24: String,
    pub callsign: Option<String>,
    pub origin_country: String,
    pub longitude: Real,
    pub latitude: Real,
    pub altitude_m: Option<Real>,
    pub velocity_ms: Option<Real>,
    pub heading: Option<Real>,
    pub on_ground: bool,
    pub behavior: Behavior,
    /// Longitude and latitude of the observations, oldest first; at most `HISTORY_MAX`.
    pub trail: Vec<(Real, Real)>,
}

/// The content of an `Aircraft`.
pub struct AircraftView {
    pub icao24: Seq<char>,
    pub callsign: Option<Seq<char>>,
    pub origin_country: Seq<char>,
    pub longitude: Real,
    pub latitude: Real,
    pub altitude_m: Option<Real>,
    pub velocity_ms: Option<Real>,
    pub heading: Option<Real>,
    pub on_ground: bool,
    pub behavior: Behavior,
    pub trail: Seq<(Real, Real)>,
}

impl View for Aircraft {
    type V = AircraftView;

    open spec fn view(&self) -> AircraftView {
        AircraftView {
            icao24: self.icao24@,
            callsign: opt_text(self.callsign),
            origin_country: self.origin_country@,
            longitude: self.longitude,
            latitude: self.latitude,
            altitude_m: self.altitude_m,
            velocity_ms: self.velocity_ms,
            heading: self.heading,
            on_ground: self.on_ground,
            behavior: self.behavior,
            trail: self.trail@,
        }
    }
}

/// Two aircraft that come too close to each other.
#[derive(Debug)]
pub struct Conflict {
    pub a_icao: String,
    pub b_icao: String,
    pub a_callsign: Option<String>,
    pub b_callsign: Option<String>,
    pub horizontal_nm: Real,
    pub vertical_ft: Real,
    pub seconds_from_now: Real,
    /// Middle between the two aircraft at the moment of the conflict.
    pub at_lng: Real,
    pub at_lat: Real,
}

/// The content of a `Conflict`.
pub struct ConflictView {
    pub a_icao: Seq<char>,
    pub b_icao: Seq<char>,
    pub a_callsign: Option<Seq<char>>,
    pub b_callsign: Option<Seq<char>>,
    pub horizontal_nm: Real,
    pub vertical_ft: Real,
    pub seconds_from_now: Real,
    pub at_lng: Real,
    pub at_lat: Real,
}

impl View for Conflict {
    type V = ConflictView;

    open spec fn view(&self) -> ConflictView {
        ConflictView {
            a_icao: self.a_icao@,
            b_icao: self.b_icao@,
            a_callsign: opt_text(self.a_callsign),
            b_callsign: opt_text(self.b_callsign),
            horizontal_nm: self.horizontal_nm,
            vertical_ft: self.vertical_ft,
            seconds_from_now: self.seconds_from_now,
            at_lng: self.at_lng,
            at_lat: self.at_lat,
        }
    }
}

/// An aircraft that will be heard at the listener.
#[derive(Debug)]
pub struct AudibleEvent {
    pub icao24: String,
    pub callsign: Option<String>,
    pub closest_approach_in_s: Real,
    pub closest_distance_nm: Real,
    pub closest_slant_m: Real,
    pub estimated_db: Real,
}

/// The content of an `AudibleEvent`.
pub struct EventView {
    pub icao24: Seq<char>,
    pub callsign: Option<Seq<char>>,
    pub closest_approach_in_s: Real,
    pub closest_distance_nm: Real,
    pub closest_slant_m: Real,
    pub estimated_db: Real,
}

impl View for AudibleEvent {
    type V = EventView;

    open spec fn view(&self) -> EventView {
        EventView {
            icao24: self.icao24@,
            callsign: opt_text(self.callsign),
            closest_approach_in_s: self.closest_approach_in_s,
            closest_distance_nm: self.closest_distance_nm,
            closest_slant_m: self.closest_slant_m,
            estimated_db: self.estimated_db,
        }
    }
}

/// The weather at the reference station.
#[derive(Debug)]
pub struct Weather {
    pub station: String,
    pub observed_at_s: i64,
    pub temp_c: Option<Real>,
    pub dewpoint_c: Option<Real>,
    pub wind_dir_deg: Option<i32>,
    pub wind_speed_kt: Option<Real>,
    pub wind_gust_kt: Option<Real>,
    pub visibility_sm: Option<String>,
    pub altimeter_hpa: Option<Real>,
    pub ceiling_ft: Option<i32>,
    pub flight_category: Option<String>,
    pub wx_string: Option<String>,
    pub raw: String,
}

/// The content of a `Weather`.
pub struct WeatherView {
    pub station: Seq<char>,
    pub observed_at_s: i64,
    pub temp_c: Option<Real>,
    pub dewpoint_c: Option<Real>,
    pub wind_dir_deg: Option<i32>,
    pub wind_speed_kt: Option<Real>,
    pub wind_gust_kt: Option<Real>,
    pub visibility_sm: Option<Seq<char>>,
    pub altimeter_hpa: Option<Real>,
    pub ceiling_ft: Option<i32>,
    pub flight_category: Option<Seq<char>>,
    pub wx_string: Option<Seq<char>>,
    pub raw: Seq<char>,
}

impl View for Weather {
    type V = WeatherView;

    open spec fn view(&self) -> WeatherView {
        WeatherView {
            station: self.station@,
            observed_at_s: self.observed_at_s,
            temp_c: self.temp_c,
            dewpoint_c: self.dewpoint_c,
            wind_dir_deg: self.wind_dir_deg,
            wind_speed_kt: self.wind_speed_kt,
            wind_gust_kt: self.wind_gust_kt,
            visibility_sm: opt_text(self.visibility_sm),
            altimeter_hpa: self.altimeter_hpa,
            ceiling_ft: self.ceiling_ft,
            flight_category: opt_text(self.flight_category),
            wx_string: opt_text(self.wx_string),
            raw: self.raw@,
        }
    }
}

impl Clone for Weather {
    fn clone(&self) -> (r: Self)
        ensures
            r == *self,
    {
        Weather {
            station: self.station.clone(),
            observed_at_s: self.observed_at_s,
            temp_c: self.temp_c,
            dewpoint_c: self.dewpoint_c,
            wind_dir_deg: self.wind_dir_deg,
            wind_speed_kt: self.wind_speed_kt,
            wind_gust_kt: self.wind_gust_kt,
            visibility_sm: self.visibility_sm.clone(),
            altimeter_hpa: self.altimeter_hpa,
            ceiling_ft: self.ceiling_ft,
            flight_category: self.flight_category.clone(),
            wx_string: self.wx_string.clone(),
            raw: self.raw.clone(),
        }
    }
}

/// The airspace at one moment.
#[derive(Debug)]
pub struct Snapshot {
    pub time: i64,
    pub fetched_at_ms: u128,
    pub aircraft: Vec<Aircraft>,
    pub conflicts: Vec<Conflict>,
    pub audible: Vec<AudibleEvent>,
    /// Longitude and latitude of the listener.
    pub listener: (Real, Real),
    pub weather: Option<Weather>,
}

/// The content of a `Snapshot`.
pub struct SnapshotView {
    pub time: i64,
    pub fetched_at_ms: u128,
    pub aircraft: Seq<AircraftView>,
    pub conflicts: Seq<ConflictView>,
    pub audible: Seq<EventView>,
    pub listener: (Real, Real),
    pub weather: Option<WeatherView>,
}

/// The contents of the items of a list.
pub open spec fn contents<T: View>(items: Seq<T>) -> Seq<T::V> {
    items.map_values(|item: T| item@)
}

/// The content of an optional weather.
pub open spec fn opt_weather(w: Option<Weather>) -> Option<WeatherView> {
    match w {
        Some(w) => Some(w@),
        None => None,
    }
}

impl View for Snapshot {
    type V = SnapshotView;

    open spec fn view(&self) -> SnapshotView {
        SnapshotView {
            time: self.time,
            fetched_at_ms: self.fetched_at_ms,
            aircraft: contents(self.aircraft@),
            conflicts: contents(self.conflicts@),
            audible: contents(self.audible@),
            listener: self.listener,
            weather: opt_weather(self.weather),
        }
    }
}

/// A comment on the airspace.
#[derive(Debug)]
pub struct Narration {
    pub at_ms: u128,
    pub text: String,
    pub aircraft_count: usize,
}

/// The contents of the items of a list stand in the order of the items.
pub proof fn contents_are_item_by_item<T: View>(items: Seq<T>)
    ensures
        contents(items).len() == items.len(),
        forall|i: int| 0 <= i < items.len() ==> #[trigger] contents(items)[i] == items[i]@,
{
}

/// The content of a report is that of its fields.
pub proof fn content_of_raw_aircraft(x: RawAircraft)
    ensures
        x@.icao24 == x.icao24@,
        x.callsign is Some ==> x@.callsign == Some(x.callsign->0@),
        x.callsign is None ==> x@.callsign is None,
        x@.origin_country == x.origin_country@,
        x@.longitude == x.longitude,
        x@.latitude == x.latitude,
        x@.altitude_m == x.altitude_m,
        x@.velocity_ms == x.velocity_ms,
        x@.heading == x.heading,
        x@.on_ground == x.on_ground,
{
}

/// The content of an aircraft is that of its fields.
pub proof fn content_of_aircraft(x: Aircraft)
    ensures
        x@.icao24 == x.icao24@,
        x.callsign is Some ==> x@.callsign == Some(x.callsign->0@),
        x.callsign is None ==> x@.callsign is None,
        x@.origin_country == x.origin_country@,
        x@.longitude == x.longitude,
        x@.latitude == x.latitude,
        x@.altitude_m == x.altitude_m,
        x@.velocity_ms == x.velocity_ms,
        x@.heading == x.heading,
        x@.on_ground == x.on_ground,
        x@.behavior == x.behavior,
        x@.trail == x.trail@,
{
}

/// The content of a conflict is that of its fields.
pub proof fn content_of_conflict(x: Conflict)
    ensures
        x@.a_icao == x.a_icao@,
        x@.b_icao == x.b_icao@,
        x.a_callsign is Some ==> x@.a_callsign == Some(x.a_callsign->0@),
        x.a_callsign is None ==> x@.a_callsign is None,
        x.b_callsign is Some ==> x@.b_callsign == Some(x.b_callsign->0@),
        x.b_callsign is None ==> x@.b_callsign is None,
        x@.horizontal_nm == x.horizontal_nm,
        x@.vertical_ft == x.vertical_ft,
        x@.seconds_from_now == x.seconds_from_now,
        x@.at_lng == x.at_lng,
        x@.at_lat == x.at_lat,
{
}

/// The content of an audible event is that of its fields.
pub proof fn content_of_audible_event(x: AudibleEvent)
    ensures
        x@.icao24 == x.icao24@,
        x.callsign is Some ==> x@.callsign == Some(x.callsign->0@),
        x.callsign is None ==> x@.callsign is None,
        x@.closest_approach_in_s == x.closest_approach_in_s,
        x@.closest_distance_nm == x.closest_distance_nm,
        x@.closest_slant_m == x.closest_slant_m,
        x@.estimated_db == x.estimated_db,
{
}

/// The content of a weather report is that of its fields.
pub proof fn content_of_weather(x: Weather)
    ensures
        x@.station == x.station@,
        x@.observed_at_s == x.observed_at_s,
        x@.temp_c == x.temp_c,
        x@.dewpoint_c == x.dewpoint_c,
        x@.wind_dir_deg == x.wind_dir_deg,
        x@.wind_speed_kt == x.wind_speed_kt,
        x@.wind_gust_kt == x.wind_gust_kt,
        x.visibility_sm is Some ==> x@.visibility_sm == Some(x.visibility_sm->0@),
        x.visibility_sm is None ==> x@.visibility_sm is None,
        x@.altimeter_hpa == x.altimeter_hpa,
        x@.ceiling_ft == x.ceiling_ft,
        x.flight_category is Some ==> x@.flight_category == Some(x.flight_category->0@),
        x.flight_category is None ==> x@.flight_category is None,
        x.wx_string is Some ==> x@.wx_string == Some(x.wx_string->0@),
        x.wx_string is None ==> x@.wx_string is None,
        x@.raw == x.raw@,
{
}

/// The content of a snapshot is that of its fields.
pub proof fn content_of_snapshot(x: Snapshot)
    ensures
        x@.time == x.time,
        x@.fetched_at_ms == x.fetched_at_ms,
        x@.aircraft.len() == x.aircraft@.len(),
        forall|i: int| 0 <= i < x.aircraft@.len() ==> #[trigger] x@.aircraft[i] == x.aircraft@[i]@,
        x@.conflicts.len() == x.conflicts@.len(),
        forall|i: int| 0 <= i < x.conflicts@.len() ==> #[trigger] x@.conflicts[i] == x.conflicts@[i]@,
        x@.audible.len() == x.audible@.len(),
        forall|i: int| 0 <= i < x.audible@.len() ==> #[trigger] x@.audible[i] == x.audible@[i]@,
        x@.listener == x.listener,
        x.weather is Some ==> x@.weather == Some(x.weather->0@),
        x.weather is None ==> x@.weather is None,
{
}

} // verus!
