use flightlive::formula::Formula;
use flightlive::fusion::fuse;
use flightlive::history::HistoryMap;
use flightlive::measure::Real;
use flightlive::tracker::{describe, listener, next_wait, Answer, Tracker};
use flightlive::types::{Behavior, RawAircraft, Weather, HISTORY_MAX};

fn num(x: f64) -> Real {
    Real { bits: x.to_bits() }
}

fn float(x: Real) -> f64 {
    f64::from_bits(x.bits)
}

fn haversine_m(lat1: f64, lng1: f64, lat2: f64, lng2: f64) -> f64 {
    let r = std::f64::consts::PI / 180.0;
    let dlat = (lat2 - lat1) * r;
    let dlng = (lng2 - lng1) * r;
    let a = (dlat / 2.0).sin().powi(2)
        + (lat1 * r).cos() * (lat2 * r).cos() * (dlng / 2.0).sin().powi(2);
    6_371_000.0 * 2.0 * a.sqrt().asin()
}

fn dead_reckon(lng: f64, lat: f64, heading_deg: f64, speed_ms: f64, dt_s: f64) -> (f64, f64) {
    let h = heading_deg.to_radians();
    let north = speed_ms * h.cos() * dt_s;
    let east = speed_ms * h.sin() * dt_s;
    (lng + east / (111_111.0 * lat.to_radians().cos()), lat + north / 111_111.0)
}

fn evaluate(q: Formula) -> Real {
    num(match q {
        Formula::Distance { lat1, lng1, lat2, lng2 } => {
            haversine_m(float(lat1), float(lng1), float(lat2), float(lng2))
        }
        Formula::ReckonedLng { lng, lat, heading_deg, speed_ms, dt_s } => {
            dead_reckon(float(lng), float(lat), float(heading_deg), float(speed_ms), float(dt_s)).0
        }
        Formula::ReckonedLat { lng, lat, heading_deg, speed_ms, dt_s } => {
            dead_reckon(float(lng), float(lat), float(heading_deg), float(speed_ms), float(dt_s)).1
        }
        Formula::Elapsed { from_ms, to_ms } => (to_ms as f64 - from_ms as f64) / 1000.0,
        Formula::Rate { from, to, seconds } => (float(to) - float(from)) / float(seconds),
        Formula::NauticalMiles { metres } => float(metres) / 1852.0,
        Formula::VerticalFeet { a_m, b_m } => (float(a_m) - float(b_m)).abs() * 3.281,
        Formula::Midpoint { a, b } => (float(a) + float(b)) / 2.0,
        Formula::Slant { horizontal_m, vertical_m } => {
            let (h, v) = (float(horizontal_m), float(vertical_m));
            (h * h + v * v).sqrt()
        }
        Formula::Difference { a, b } => float(a) - float(b),
        Formula::Level { source_db, slant_m } => {
            float(source_db) - 20.0 * (float(slant_m) / 1000.0).log10()
        }
        Formula::FeetToMetres { feet } => float(feet) / 3.281,
        Formula::KnotsToMetresPerSecond { knots } => float(knots) * 0.5144,
        Formula::MetresToFeet { metres } => float(metres) * 3.281,
        Formula::MetresPerSecondToKnots { speed_ms } => float(speed_ms) * 1.944,
    })
}

fn near(x: Real, y: f64) -> bool {
    (float(x) - y).abs() < 1e-6
}

fn raw(icao24: &str, country: &str, lng: f64, lat: f64) -> RawAircraft {
    RawAircraft {
        icao24: icao24.to_string(),
        callsign: None,
        origin_country: country.to_string(),
        longitude: num(lng),
        latitude: num(lat),
        altitude_m: Some(num(1000.0)),
        velocity_ms: Some(num(100.0)),
        heading: Some(num(0.0)),
        on_ground: false,
    }
}

fn failure(message: &str) -> Answer {
    Err(message.to_string())
}

#[test]
fn fusion_takes_the_fresher_position_and_the_better_country() {
    let mut a = raw("a1", "Germany", 1.0, 2.0);
    a.callsign = Some("DLH1".to_string());
    let b = raw("b2", "", 3.0, 4.0);
    let mut a_now = raw("a1", "United States", 5.0, 6.0);
    a_now.callsign = Some("OTHER".to_string());
    a_now.altitude_m = None;
    a_now.on_ground = true;
    let mut b_now = raw("b2", "Canada", 7.0, 8.0);
    b_now.callsign = Some("ACA2".to_string());
    let c = raw("c3", "Mexico", 9.0, 10.0);
    let r = fuse(&[a, b], &[a_now, b_now, c]);
    assert_eq!(r.len(), 3);
    assert_eq!(r[0].icao24, "a1");
    assert_eq!(r[0].callsign.as_deref(), Some("DLH1"));
    assert_eq!(r[0].origin_country, "Germany");
    assert_eq!((r[0].longitude, r[0].latitude), (num(5.0), num(6.0)));
    assert_eq!(r[0].altitude_m, None);
    assert!(r[0].on_ground);
    assert_eq!(r[1].callsign.as_deref(), Some("ACA2"));
    assert_eq!(r[1].origin_country, "Canada");
    assert_eq!(r[2].icao24, "c3");
    assert_eq!(r[2].origin_country, "Mexico");
}

#[test]
fn fusion_of_repeated_addresses() {
    let r = fuse(&[raw("a", "X", 1.0, 1.0), raw("a", "Y", 2.0, 2.0)], &[]);
    assert_eq!(r.len(), 1);
    assert_eq!(r[0].origin_country, "Y");
    let r = fuse(&[], &[raw("a", "X", 1.0, 1.0), raw("a", "Y", 2.0, 2.0)]);
    assert_eq!(r.len(), 1);
    assert_eq!(r[0].origin_country, "X");
    assert_eq!(r[0].longitude, num(2.0));
    assert!(fuse(&[], &[]).is_empty());
}

#[test]
fn tracks_grow_at_their_end_and_stay_bounded() {
    let mut h = HistoryMap::new();
    let key = "a".to_string();
    assert!(h.get(&key).is_none());
    for k in 0..50u64 {
        h.update(&[raw("a", "", k as f64, 0.0)], k);
        let points = h.get(&key).unwrap();
        assert_eq!(points.len(), HISTORY_MAX.min(k as usize + 1));
        assert_eq!(points.back().unwrap().time_ms, k);
    }
    let points = h.get(&key).unwrap();
    assert_eq!(points.front().unwrap().time_ms, 50 - HISTORY_MAX as u64);
    assert_eq!(points.front().unwrap().lng, num(50.0 - HISTORY_MAX as f64));
}

#[test]
fn tracks_of_those_out_of_sight_are_dropped() {
    let mut h = HistoryMap::new();
    h.update(&[raw("a", "", 0.0, 0.0), raw("b", "", 0.0, 0.0)], 1);
    h.update(&[raw("b", "", 0.0, 0.0), raw("c", "", 0.0, 0.0)], 2);
    assert!(h.get(&"a".to_string()).is_none());
    assert_eq!(h.get(&"b".to_string()).unwrap().len(), 2);
    assert_eq!(h.get(&"c".to_string()).unwrap().len(), 1);
    h.record(&raw("a", "", 0.0, 0.0), 3);
    assert_eq!(h.get(&"a".to_string()).unwrap().len(), 1);
    h.retain(&[raw("a", "", 0.0, 0.0)]);
    assert!(h.get(&"b".to_string()).is_none());
}

#[test]
fn aircraft_without_a_track_are_where_they_are() {
    let a = describe(raw("a", "X", 1.0, 2.0), &HistoryMap::new(), &evaluate);
    assert_eq!(a.behavior, Behavior::Enroute);
    assert_eq!(a.trail, vec![(num(1.0), num(2.0))]);
}

#[test]
fn waits_double_up_to_five_minutes() {
    let limited = "opensky http 429 rate limited: ";
    let mut wait = 10;
    for due in [20, 40, 80, 160, 300, 300] {
        wait = next_wait(wait, limited);
        assert_eq!(wait, due);
    }
    assert_eq!(next_wait(40, "opensky http 503: "), 40);
    assert_eq!(next_wait(u64::MAX, "429"), 300);
}

#[test]
fn a_round_is_lost_where_both_feeds_fail() {
    let mut t = Tracker::new();
    assert_eq!(t.wait_s, 10);
    let lost = t.round(&failure("down"), &failure("opensky http 429 x"), 1, 2, None, &evaluate);
    assert!(lost.is_none());
    assert_eq!(t.wait_s, 20);
    let lost = t.round(&failure("429"), &failure("request failed"), 1, 2, None, &evaluate);
    assert!(lost.is_none());
    assert_eq!(t.wait_s, 20);
    let kept = t.round(&Ok((7, vec![])), &failure("opensky http 429 x"), 1, 2, None, &evaluate);
    assert_eq!(t.wait_s, 10);
    assert_eq!(kept.unwrap().time, 7);
}

#[test]
fn a_lost_round_keeps_the_tracks() {
    let mut t = Tracker::new();
    let seen = || Ok((5, vec![raw("a", "", 1.0, 2.0)]));
    t.round(&seen(), &failure("x"), 1, 2, None, &evaluate);
    t.round(&failure("x"), &failure("y"), 3, 4, None, &evaluate);
    let s = t.round(&seen(), &failure("x"), 5, 6, None, &evaluate).unwrap();
    assert_eq!(s.aircraft[0].trail.len(), 2);
}

#[test]
fn rounds_make_snapshots() {
    let mut t = Tracker::new();
    let weather = Weather {
        station: "KAPS".to_string(),
        observed_at_s: 1,
        temp_c: None,
        dewpoint_c: None,
        wind_dir_deg: None,
        wind_speed_kt: None,
        wind_gust_kt: None,
        visibility_sm: None,
        altimeter_hpa: None,
        ceiling_ft: None,
        flight_category: None,
        wx_string: None,
        raw: "r".to_string(),
    };
    let opensky: Answer = Ok((100, vec![raw("a", "Germany", -90.628, 29.9), raw("b", "X", -90.628, 29.972)]));
    let adsb: Answer = Ok((90, vec![raw("a", "", -90.628, 29.973)]));
    let s = t.round(&adsb, &opensky, 1000, 2000, Some(weather), &evaluate).unwrap();
    assert_eq!(s.time, 100);
    assert_eq!(s.fetched_at_ms, 2000);
    assert_eq!(s.listener, listener());
    assert_eq!(s.listener, (num(-90.628), num(30.063)));
    assert_eq!(s.weather.as_ref().unwrap().station, "KAPS");
    assert_eq!(s.aircraft.len(), 2);
    for a in &s.aircraft {
        assert_eq!(a.trail.last(), Some(&(a.longitude, a.latitude)));
    }
    assert_eq!(s.aircraft[0].origin_country, "Germany");
    assert_eq!(s.aircraft[0].latitude, num(29.973));
    assert_eq!(s.conflicts.len(), 1);
    assert!(near(s.conflicts[0].vertical_ft, 0.0));
    assert_eq!(s.audible.len(), 2);
    assert_eq!(s.audible[0].icao24, "a");
    assert_eq!(s.audible[0].closest_approach_in_s, num(100.0));
}

#[test]
fn trails_follow_the_aircraft() {
    let mut t = Tracker::new();
    for k in 0..40u64 {
        let answer: Answer = Ok((0, vec![raw("a", "", -90.0, 30.0 + 0.01 * k as f64)]));
        let s = t.round(&answer, &failure("x"), k * 10_000, 0, None, &evaluate).unwrap();
        assert_eq!(s.aircraft[0].trail.len(), HISTORY_MAX.min(k as usize + 1));
        assert_eq!(s.aircraft[0].trail.last(), Some(&(s.aircraft[0].longitude, s.aircraft[0].latitude)));
    }
}
