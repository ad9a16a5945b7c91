use flightlive::acoustics::{predict_audible, source_db_at_1km};
use flightlive::analysis::{altitude_rate_mps, classify, is_holding, spatial_drift_m};
use flightlive::conflicts::{check_pair, detect_conflicts};
use flightlive::formula::Formula;
use flightlive::measure::Real;
use flightlive::types::{
    Aircraft, Behavior, TrackPoint, LISTENER_LAT_BITS, LISTENER_LNG_BITS,
};
use std::collections::VecDeque;

fn num(x: f64) -> Real {
    Real { bits: x.to_bits() }
}

fn float(x: Real) -> f64 {
    f64::from_bits(x.bits)
}

fn haversine_m(lat1: f64, lng1: f64, lat2: f64, lng2: f64) -> f64 {
    let r = std::f64::consts::PI / 180.0;
    let dlat = (lat2 - lat1) * r;
    let dlng = (lng2 - lng1) * r;
    let a = (dlat / 2.0).sin().powi(2)
        + (lat1 * r).cos() * (lat2 * r).cos() * (dlng / 2.0).sin().powi(2);
    6_371_000.0 * 2.0 * a.sqrt().asin()
}

fn dead_reckon(lng: f64, lat: f64, heading_deg: f64, speed_ms: f64, dt_s: f64) -> (f64, f64) {
    let h = heading_deg.to_radians();
    let north = speed_ms * h.cos() * dt_s;
    let east = speed_ms * h.sin() * dt_s;
    (lng + east / (111_111.0 * lat.to_radians().cos()), lat + north / 111_111.0)
}

fn evaluate(q: Formula) -> Real {
    num(match q {
        Formula::Distance { lat1, lng1, lat2, lng2 } => {
            haversine_m(float(lat1), float(lng1), float(lat2), float(lng2))
        }
        Formula::ReckonedLng { lng, lat, heading_deg, speed_ms, dt_s } => {
            dead_reckon(float(lng), float(lat), float(heading_deg), float(speed_ms), float(dt_s)).0
        }
        Formula::ReckonedLat { lng, lat, heading_deg, speed_ms, dt_s } => {
            dead_reckon(float(lng), float(lat), float(heading_deg), float(speed_ms), float(dt_s)).1
        }
        Formula::Elapsed { from_ms, to_ms } => (to_ms as f64 - from_ms as f64) / 1000.0,
        Formula::Rate { from, to, seconds } => (float(to) - float(from)) / float(seconds),
        Formula::NauticalMiles { metres } => float(metres) / 1852.0,
        Formula::VerticalFeet { a_m, b_m } => (float(a_m) - float(b_m)).abs() * 3.281,
        Formula::Midpoint { a, b } => (float(a) + float(b)) / 2.0,
        Formula::Slant { horizontal_m, vertical_m } => {
            let (h, v) = (float(horizontal_m), float(vertical_m));
            (h * h + v * v).sqrt()
        }
        Formula::Difference { a, b } => float(a) - float(b),
        Formula::Level { source_db, slant_m } => {
            float(source_db) - 20.0 * (float(slant_m) / 1000.0).log10()
        }
        Formula::FeetToMetres { feet } => float(feet) / 3.281,
        Formula::KnotsToMetresPerSecond { knots } => float(knots) * 0.5144,
        Formula::MetresToFeet { metres } => float(metres) * 3.281,
        Formula::MetresPerSecondToKnots { speed_ms } => float(speed_ms) * 1.944,
    })
}

fn near(x: Real, y: f64) -> bool {
    (float(x) - y).abs() < 1e-6
}

fn point(time_ms: u64, lng: f64, lat: f64, altitude_m: f64, velocity_ms: f64) -> TrackPoint {
    TrackPoint {
        time_ms,
        lng: num(lng),
        lat: num(lat),
        altitude_m: Some(num(altitude_m)),
        velocity_ms: Some(num(velocity_ms)),
        heading: None,
        on_ground: false,
    }
}

fn behavior(points: Vec<TrackPoint>) -> Behavior {
    classify(&VecDeque::from(points), &evaluate)
}

fn plane(icao24: &str, lng: f64, lat: f64, altitude_m: f64, heading: f64, velocity_ms: f64) -> Aircraft {
    Aircraft {
        icao24: icao24.to_string(),
        callsign: None,
        origin_country: "United States".to_string(),
        longitude: num(lng),
        latitude: num(lat),
        altitude_m: Some(num(altitude_m)),
        velocity_ms: Some(num(velocity_ms)),
        heading: Some(num(heading)),
        on_ground: false,
        behavior: Behavior::Enroute,
        trail: vec![],
    }
}

#[test]
fn no_track_is_en_route() {
    assert_eq!(behavior(vec![]), Behavior::Enroute);
}

#[test]
fn moving_on_the_ground_is_taxiing() {
    let mut p = point(0, -90.0, 30.0, 0.0, 1.5);
    p.on_ground = true;
    assert_eq!(behavior(vec![p]), Behavior::Taxiing);
    p.velocity_ms = Some(num(1.0));
    assert_eq!(behavior(vec![p]), Behavior::Enroute);
    p.velocity_ms = None;
    assert_eq!(behavior(vec![p]), Behavior::Enroute);
}

#[test]
fn slow_low_and_still_is_hovering() {
    let p = |t: u64, lat: f64| point(t, -90.0, lat, 100.0, 2.0);
    assert_eq!(behavior(vec![p(0, 30.0), p(10_000, 30.001), p(20_000, 30.0)]), Behavior::Hovering);
    assert_eq!(behavior(vec![p(0, 30.0), p(10_000, 30.0)]), Behavior::Enroute);
    assert_eq!(behavior(vec![p(0, 30.0), p(10_000, 30.003), p(20_000, 30.0)]), Behavior::Enroute);
    let mut fast = point(20_000, -90.0, 30.0, 100.0, 6.0);
    assert_eq!(behavior(vec![p(0, 30.0), p(10_000, 30.0), fast]), Behavior::Enroute);
    fast = point(20_000, -90.0, 30.0, 800.0, 2.0);
    assert_eq!(behavior(vec![point(0, -90.0, 30.0, 800.0, 2.0), p(10_000, 30.0), fast]), Behavior::Enroute);
}

#[test]
fn drift_looks_at_five_observations() {
    let mut track = vec![point(0, -90.0, 31.0, 100.0, 2.0)];
    for k in 1..6u64 {
        track.push(point(k * 10_000, -90.0, 30.0, 100.0, 2.0));
    }
    assert_eq!(behavior(track.clone()), Behavior::Hovering);
    track.pop();
    assert_eq!(behavior(track), Behavior::Enroute);
}

#[test]
fn drift_is_the_largest_distance_of_the_last_five() {
    let p = |lat: f64| point(0, -90.0, lat, 100.0, 2.0);
    let drift = |lats: &[f64]| {
        let track: VecDeque<TrackPoint> = lats.iter().map(|lat| p(*lat)).collect();
        spatial_drift_m(&track, &evaluate)
    };
    assert_eq!(drift(&[]), num(0.0));
    assert_eq!(drift(&[30.0]), num(0.0));
    assert!((float(drift(&[30.0, 30.01])) - 1111.9492664457612).abs() < 1e-6);
    let five = drift(&[30.0, 30.01, 30.003, 30.002, 30.004]);
    assert_eq!(drift(&[31.0, 30.0, 30.01, 30.003, 30.002, 30.004]), five);
    assert_eq!(drift(&[30.004, 30.002, 30.01, 30.0, 30.003]), five);
}

#[test]
fn rates_and_holding_of_short_tracks() {
    let mut track = VecDeque::from(vec![point(0, -90.0, 30.0, 1000.0, 100.0)]);
    assert_eq!(altitude_rate_mps(&track, &evaluate), num(0.0));
    track.push_back(point(10_000, -90.0, 30.0, 1025.0, 100.0));
    assert_eq!(altitude_rate_mps(&track, &evaluate), num(2.5));
    for k in 2..7u64 {
        track.push_back(point(k * 10_000, -90.0, 30.0, 1025.0, 100.0));
    }
    assert!(!is_holding(&track, &evaluate));
    track.push_back(point(70_000, -90.0, 30.0, 1025.0, 100.0));
    assert!(is_holding(&track, &evaluate));
}

#[test]
fn coming_back_is_holding() {
    let mut track = vec![];
    for k in 0..8u64 {
        track.push(point(k * 10_000, -90.0, 30.0 + 0.05 * k as f64, 2000.0, 100.0));
    }
    assert_eq!(behavior(track.clone()), Behavior::Enroute);
    track[7].lat = num(30.151);
    assert_eq!(behavior(track.clone()), Behavior::Holding);
    track[7].lat = num(30.201);
    assert_eq!(behavior(track.clone()), Behavior::Enroute);
    track[7].lat = num(30.001);
    track.remove(3);
    assert_eq!(behavior(track), Behavior::Enroute);
}

#[test]
fn vertical_speed_tells_the_phase() {
    let two = |from: f64, to: f64| {
        behavior(vec![point(0, -90.0, 30.0, from, 120.0), point(10_000, -90.0, 30.1, to, 120.0)])
    };
    assert_eq!(two(2030.0, 2000.0), Behavior::Approach);
    assert_eq!(two(2020.0, 2000.0), Behavior::Enroute);
    assert_eq!(two(3050.0, 3000.0), Behavior::Descending);
    assert_eq!(two(3040.0, 3000.0), Behavior::Enroute);
    assert_eq!(two(2000.0, 2050.0), Behavior::Climbing);
    assert_eq!(two(2000.0, 2040.0), Behavior::Enroute);
    assert_eq!(two(7000.0, 7050.0), Behavior::Cruise);
    assert_eq!(two(9000.0, 9000.0), Behavior::Cruise);
    assert_eq!(two(6000.0, 6000.0), Behavior::Enroute);
}

#[test]
fn vertical_speed_is_taken_over_three_observations() {
    let far = vec![
        point(0, -90.0, 30.0, 9000.0, 120.0),
        point(10_000, -90.0, 30.1, 2000.0, 120.0),
        point(20_000, -90.0, 30.2, 2000.0, 120.0),
        point(30_000, -90.0, 30.3, 2000.0, 120.0),
    ];
    assert_eq!(behavior(far), Behavior::Enroute);
    let quick = vec![point(0, -90.0, 30.0, 2100.0, 120.0), point(499, -90.0, 30.1, 2000.0, 120.0)];
    assert_eq!(behavior(quick), Behavior::Enroute);
    let enough = vec![point(0, -90.0, 30.0, 2100.0, 120.0), point(500, -90.0, 30.1, 2000.0, 120.0)];
    assert_eq!(behavior(enough), Behavior::Approach);
}

#[test]
fn close_aircraft_are_in_conflict_now() {
    let all = vec![
        plane("b", -90.0, 30.0, 1000.0, 0.0, 0.0),
        plane("a", -90.0, 30.01, 1100.0, 0.0, 0.0),
    ];
    let r = detect_conflicts(&all, num(60.0), &evaluate);
    assert_eq!(r.len(), 1);
    assert_eq!((r[0].a_icao.as_str(), r[0].b_icao.as_str()), ("b", "a"));
    assert!(near(r[0].horizontal_nm, 0.6004045715149898));
    assert_eq!(r[0].vertical_ft, num(328.1));
    assert_eq!(r[0].seconds_from_now, num(0.0));
    assert_eq!(r[0].at_lng, num(-90.0));
    assert!(near(r[0].at_lat, 30.005));
}

#[test]
fn approaching_aircraft_are_in_conflict_later() {
    let all = vec![
        plane("x", -90.0, 30.0, 1000.0, 0.0, 200.0),
        plane("y", -90.0, 30.2, 1000.0, 180.0, 200.0),
    ];
    let r = detect_conflicts(&all, num(60.0), &evaluate);
    assert_eq!(r.len(), 1);
    assert_eq!(r[0].seconds_from_now, num(60.0));
    assert!(near(r[0].at_lat, 30.1));
    assert!(detect_conflicts(&all, num(0.0), &evaluate).is_empty());
}

#[test]
fn separation_is_horizontal_or_vertical() {
    let high = vec![
        plane("a", -90.0, 30.0, 1000.0, 0.0, 0.0),
        plane("b", -90.0, 30.0, 1305.0, 0.0, 0.0),
    ];
    assert!(detect_conflicts(&high, num(60.0), &evaluate).is_empty());
    let wide = vec![
        plane("a", -90.0, 30.0, 1000.0, 0.0, 0.0),
        plane("b", -90.0, 30.05, 1000.0, 0.0, 0.0),
    ];
    assert!(detect_conflicts(&wide, num(60.0), &evaluate).is_empty());
    let mut parked = vec![
        plane("a", -90.0, 30.0, 0.0, 0.0, 0.0),
        plane("b", -90.0, 30.0, 0.0, 0.0, 0.0),
    ];
    parked[1].on_ground = true;
    assert!(detect_conflicts(&parked, num(60.0), &evaluate).is_empty());
}

#[test]
fn pairs_are_reported_once_and_in_order() {
    let all = vec![
        plane("c", -90.0, 30.0, 1000.0, 0.0, 0.0),
        plane("a", -90.0, 30.001, 1000.0, 0.0, 0.0),
        plane("b", -90.0, 30.002, 1000.0, 0.0, 0.0),
    ];
    let r = detect_conflicts(&all, num(60.0), &evaluate);
    let pairs: Vec<(&str, &str)> = r.iter().map(|c| (c.a_icao.as_str(), c.b_icao.as_str())).collect();
    assert_eq!(pairs, vec![("a", "b"), ("c", "a"), ("c", "b")]);
    assert!(r.iter().all(|c| c.seconds_from_now == num(0.0)));
}

#[test]
fn conflicts_are_the_same_in_either_order() {
    let a = || plane("a", -90.0, 30.0, 1000.0, 20.0, 90.0);
    let b = || plane("b", -90.01, 30.02, 1100.0, 200.0, 80.0);
    let r = detect_conflicts(&[a(), b()], num(60.0), &evaluate);
    let t = detect_conflicts(&[b(), a()], num(60.0), &evaluate);
    assert_eq!((r.len(), t.len()), (1, 1));
    assert_eq!((r[0].a_icao.as_str(), t[0].b_icao.as_str()), ("a", "a"));
    assert_eq!((r[0].b_icao.as_str(), t[0].a_icao.as_str()), ("b", "b"));
    assert_eq!(r[0].horizontal_nm, t[0].horizontal_nm);
    assert_eq!(r[0].vertical_ft, t[0].vertical_ft);
    assert_eq!(r[0].seconds_from_now, t[0].seconds_from_now);
    assert_eq!((r[0].at_lng, r[0].at_lat), (t[0].at_lng, t[0].at_lat));
}

#[test]
fn pairs_may_be_asked_in_either_order() {
    let a = plane("a", -90.0, 30.0, 1000.0, 20.0, 30.0);
    let b = plane("b", -90.01, 30.02, 1100.0, 200.0, 20.0);
    let far = plane("c", -80.0, 30.02, 1100.0, 200.0, 80.0);
    for dt_s in [0.0, 60.0] {
        let r = check_pair(&a, &b, num(dt_s), &evaluate).unwrap();
        let t = check_pair(&b, &a, num(dt_s), &evaluate).unwrap();
        assert_eq!((r.a_icao, r.b_icao), (t.b_icao, t.a_icao));
        assert_eq!((r.horizontal_nm, r.vertical_ft), (t.horizontal_nm, t.vertical_ft));
        assert_eq!((r.at_lng, r.at_lat), (t.at_lng, t.at_lat));
        assert_eq!((r.seconds_from_now, t.seconds_from_now), (num(dt_s), num(dt_s)));
        assert!(check_pair(&a, &far, num(dt_s), &evaluate).is_none());
        assert!(check_pair(&far, &a, num(dt_s), &evaluate).is_none());
    }
}

#[test]
fn more_aircraft_keep_the_conflicts() {
    let a = || plane("a", -90.0, 30.0, 1000.0, 0.0, 200.0);
    let b = || plane("b", -90.0, 30.2, 1000.0, 180.0, 200.0);
    let c = || plane("c", -90.0, 30.001, 1000.0, 0.0, 0.0);
    let few = detect_conflicts(&[a(), b()], num(60.0), &evaluate);
    let many = detect_conflicts(&[c(), b(), a()], num(60.0), &evaluate);
    assert_eq!(few.len(), 1);
    let same: Vec<_> = many.iter().filter(|d| d.a_icao == "b" && d.b_icao == "a").collect();
    assert_eq!(same.len(), 1);
    assert_eq!(same[0].seconds_from_now, few[0].seconds_from_now);
    assert_eq!(same[0].horizontal_nm, few[0].horizontal_nm);
    let turned = detect_conflicts(&[a(), c(), b()], num(60.0), &evaluate);
    assert_eq!(turned.len(), many.len());
}

#[test]
fn conflicts_of_now_stand_before_those_of_the_same_second() {
    let all = vec![
        plane("a", -90.0, 30.0, 1000.0, 0.0, 100.0),
        plane("b", -90.0, 30.01, 1000.0, 0.0, 100.0),
    ];
    for horizon_s in [0.5, -0.5, 60.0] {
        let r = detect_conflicts(&all, num(horizon_s), &evaluate);
        assert_eq!(r.len(), 1);
        assert_eq!(r[0].seconds_from_now, num(0.0));
    }
    let r = detect_conflicts(&all, num(-1.0), &evaluate);
    assert_eq!(r.len(), 1);
    assert_eq!(r[0].seconds_from_now, num(-1.0));
}

fn audible(all: &[Aircraft], horizon_s: f64) -> Vec<(String, f64, f64)> {
    let lng = Real { bits: LISTENER_LNG_BITS };
    let lat = Real { bits: LISTENER_LAT_BITS };
    predict_audible(all, lng, lat, num(horizon_s), &evaluate)
        .iter()
        .map(|e| (e.icao24.clone(), float(e.closest_approach_in_s), float(e.estimated_db)))
        .collect()
}

#[test]
fn the_listener_is_at_the_refinery() {
    assert_eq!(LISTENER_LNG_BITS, (-90.628f64).to_bits());
    assert_eq!(LISTENER_LAT_BITS, 30.063f64.to_bits());
}

#[test]
fn overflights_are_heard() {
    let all = vec![plane("jet", -90.628, 29.963, 1000.0, 0.0, 111.111)];
    let r = predict_audible(&all, num(-90.628), num(30.063), num(240.0), &evaluate);
    assert_eq!(r.len(), 1);
    assert_eq!(r[0].closest_approach_in_s, num(100.0));
    assert!(float(r[0].closest_distance_nm) < 0.001);
    assert!(near(r[0].closest_slant_m, 1000.0));
    assert!(near(r[0].estimated_db, 78.0));
}

#[test]
fn the_soonest_is_heard_first() {
    let all = vec![
        plane("late", -90.628, 29.963, 1000.0, 0.0, 111.111),
        plane("soon", -90.628, 30.013, 1000.0, 0.0, 111.111),
        plane("also", -90.628, 30.113, 1000.0, 180.0, 111.111),
    ];
    let r = audible(&all, 240.0);
    let names: Vec<&str> = r.iter().map(|e| e.0.as_str()).collect();
    assert_eq!(names, vec!["soon", "also", "late"]);
    assert_eq!((r[0].1, r[1].1, r[2].1), (50.0, 50.0, 100.0));
}

#[test]
fn events_of_two_lists_are_joined() {
    let late = || plane("late", -90.628, 29.963, 1000.0, 0.0, 111.111);
    let soon = || plane("soon", -90.628, 30.013, 1000.0, 0.0, 111.111);
    let also = || plane("also", -90.628, 30.113, 1000.0, 180.0, 111.111);
    let mut apart = audible(&[late(), soon()], 240.0);
    apart.extend(audible(&[also()], 240.0));
    apart.sort_by(|x, y| x.1.partial_cmp(&y.1).unwrap());
    assert_eq!(audible(&[late(), soon(), also()], 240.0), apart);
}

#[test]
fn aircraft_that_are_not_heard() {
    let far = plane("far", -90.628, 30.263, 500.0, 90.0, 100.0);
    let still = plane("still", -90.628, 30.063, 500.0, 0.0, 0.5);
    let mut parked = plane("parked", -90.628, 30.063, 500.0, 0.0, 100.0);
    parked.on_ground = true;
    let closing = plane("closing", -90.628, 29.763, 500.0, 0.0, 100.0);
    assert!(audible(&[far, still, parked, closing], 240.0).is_empty());
    let here = plane("here", -90.628, 30.063, 500.0, 0.0, 100.0);
    assert!(audible(std::slice::from_ref(&here), 0.0).is_empty());
    assert!(audible(std::slice::from_ref(&here), 5.0).is_empty());
    assert!(audible(std::slice::from_ref(&here), f64::NAN).is_empty());
    assert_eq!(audible(std::slice::from_ref(&here), 10.0).len(), 1);
}

#[test]
fn short_distances_count_as_a_hundred_metres() {
    let low = plane("low", -90.628, 30.063, 10.0, 0.0, 20.0);
    let r = audible(std::slice::from_ref(&low), 240.0);
    assert_eq!(r[0].1, 0.0);
    assert!((r[0].2 - 90.0).abs() < 1e-9);
}

#[test]
fn levels_of_helicopters_small_aircraft_and_jets() {
    let mut a = plane("a", 0.0, 0.0, 500.0, 0.0, 29.0);
    assert_eq!(source_db_at_1km(&a), 70);
    a.velocity_ms = Some(num(30.0));
    assert_eq!(source_db_at_1km(&a), 78);
    a.callsign = Some("N12345".to_string());
    assert_eq!(source_db_at_1km(&a), 62);
    a.callsign = Some("N1234567".to_string());
    assert_eq!(source_db_at_1km(&a), 78);
    a.callsign = Some("N12345é".to_string());
    assert_eq!(source_db_at_1km(&a), 78);
    a.callsign = Some("UAL1".to_string());
    assert_eq!(source_db_at_1km(&a), 78);
    a.callsign = Some("N12345".to_string());
    a.altitude_m = Some(num(3000.0));
    assert_eq!(source_db_at_1km(&a), 78);
    a.altitude_m = None;
    a.velocity_ms = None;
    assert_eq!(source_db_at_1km(&a), 78);
}
