use flightlive::adsb_lol;
use flightlive::adsb_lol::{batch_of, convert, registration_country, AdsbLolResponse, AircraftRaw};
use flightlive::auth::{access, Access, OpenSkyAuth};
use flightlive::clock::{low_ms, ms_at, now_ms, now_ms_u64};
use flightlive::formula::Formula;
use flightlive::json::{read_value, Cell};
use flightlive::measure::Real;
use flightlive::opensky;
use flightlive::opensky::{aircraft_of, make_track_point, state_to_partial, OpenSkyResponse};
use flightlive::types::Weather;
use flightlive::weather;
use flightlive::weather::{
    compute_ceiling_ft, first_observation, metar_url, value_as_i32, value_as_visib_string,
    weather_after, CloudLayer, MetarRaw,
};
use serde_json::Value;
use std::time::{Duration, SystemTime, UNIX_EPOCH};

fn num(x: f64) -> Real {
    Real { bits: x.to_bits() }
}

fn float(x: Real) -> f64 {
    f64::from_bits(x.bits)
}

fn parse(s: &str) -> Value {
    serde_json::from_str(s).unwrap()
}

fn row(s: &str) -> Vec<Value> {
    serde_json::from_str(s).unwrap()
}

fn conversions(q: Formula) -> Real {
    match q {
        Formula::FeetToMetres { feet } => num(float(feet) / 3.281),
        Formula::KnotsToMetresPerSecond { knots } => num(float(knots) * 0.5144),
        _ => panic!("not asked of a feed"),
    }
}

fn report(hex: &str) -> AircraftRaw {
    AircraftRaw {
        hex: hex.to_string(),
        flight: None,
        r: None,
        t: None,
        alt_baro: None,
        gs: None,
        track: None,
        lat: Some(num(30.0)),
        lon: Some(num(-90.5)),
        category: None,
        seen_pos: None,
    }
}

#[test]
fn json_values_are_read() {
    assert!(matches!(read_value(&parse("\"UAL 1\"")), Cell::Text(t) if t == "UAL 1"));
    assert!(matches!(read_value(&parse("true")), Cell::Bool(true)));
    assert!(matches!(read_value(&parse("null")), Cell::Other));
    assert!(matches!(read_value(&parse("[1]")), Cell::Other));
    match read_value(&parse("-7")) {
        Cell::Number { whole, measured, text } => {
            assert_eq!(whole, Some(-7));
            assert_eq!(measured, Some(num(-7.0)));
            assert_eq!(text, "-7");
        }
        _ => panic!("a number was due"),
    }
    match read_value(&parse("2.50")) {
        Cell::Number { whole, measured, text } => {
            assert_eq!(whole, None);
            assert_eq!(measured, Some(num(2.5)));
            assert_eq!(text, "2.5");
        }
        _ => panic!("a number was due"),
    }
}

#[test]
fn states_are_decoded() {
    let s = row(
        "[\" a1b2c3 \", \"UAL215  \", \"United States\", 1, 2, -90.25, 30, 3048.5, true, 120.5, 270.25]",
    );
    let a = state_to_partial(&s).unwrap();
    assert_eq!(a.icao24, "a1b2c3");
    assert_eq!(a.callsign.as_deref(), Some("UAL215"));
    assert_eq!(a.origin_country, "United States");
    assert_eq!(a.longitude, num(-90.25));
    assert_eq!(a.latitude, num(30.0));
    assert_eq!(a.altitude_m, Some(num(3048.5)));
    assert!(a.on_ground);
    assert_eq!(a.velocity_ms, Some(num(120.5)));
    assert_eq!(a.heading, Some(num(270.25)));
}

#[test]
fn optional_fields_of_a_state_may_be_missing() {
    let a = state_to_partial(&row("[\"a1\", \"   \", \"\", null, null, 1.5, 2.5]")).unwrap();
    assert_eq!(a.callsign, None);
    assert_eq!(a.altitude_m, None);
    assert_eq!(a.velocity_ms, None);
    assert_eq!(a.heading, None);
    assert!(!a.on_ground);
    let b = state_to_partial(&row("[\"a1\", 7, \"x\", 0, 0, 1, 2, \"high\", 1, null, false]")).unwrap();
    assert_eq!(b.callsign, None);
    assert_eq!(b.altitude_m, None);
    assert!(!b.on_ground);
}

#[test]
fn the_country_of_a_state_may_be_missing() {
    let a = state_to_partial(&row("[\"a1b2c3\", \"UAL215\", null, null, null, -90.5, 30.1]")).unwrap();
    assert_eq!(a.icao24, "a1b2c3");
    assert_eq!(a.origin_country, "");
    assert_eq!((a.longitude, a.latitude), (num(-90.5), num(30.1)));
}

#[test]
fn states_without_a_required_field_are_none() {
    assert!(state_to_partial(&row("[]")).is_none());
    assert!(state_to_partial(&row("[null, null, \"x\", 0, 0, 1, 2]")).is_none());
    assert!(state_to_partial(&row("[\"a1\", null, \"x\", 0, 0, null, 2]")).is_none());
    assert!(state_to_partial(&row("[\"a1\", null, \"x\", 0, 0, 1, \"2\"]")).is_none());
    assert!(state_to_partial(&row("[\"a1\", null, \"x\", 0, 0, 1]")).is_none());
}

#[test]
fn unreadable_states_are_passed_over() {
    let r = OpenSkyResponse {
        time: 5,
        states: Some(vec![
            row("[\"a1\", null, \"x\", 0, 0, 1, 2]"),
            row("[\"a2\"]"),
            row("[\"a3\", null, \"y\", 0, 0, 3, 4]"),
        ]),
    };
    let all = aircraft_of(&r);
    assert_eq!(all.len(), 2);
    assert_eq!(all[0].icao24, "a1");
    assert_eq!(all[1].icao24, "a3");
    assert_eq!(aircraft_of(&OpenSkyResponse { time: 5, states: None }).len(), 0);
}

#[test]
fn observations_copy_the_report() {
    let a = state_to_partial(&row("[\"a1\", null, \"x\", 0, 0, 1, 2, 3, true, 4, 5]")).unwrap();
    let p = make_track_point(&a, 77);
    assert_eq!(p.time_ms, 77);
    assert_eq!((p.lng, p.lat), (num(1.0), num(2.0)));
    assert_eq!(p.altitude_m, Some(num(3.0)));
    assert_eq!(p.velocity_ms, Some(num(4.0)));
    assert_eq!(p.heading, Some(num(5.0)));
    assert!(p.on_ground);
}

#[test]
fn opensky_errors_quote_the_body() {
    assert_eq!(opensky::status_error(200, "200 OK", "x"), None);
    assert_eq!(opensky::status_error(299, "299", ""), None);
    assert_eq!(
        opensky::status_error(429, "429 Too Many Requests", "slow down").as_deref(),
        Some("opensky http 429 rate limited: slow down")
    );
    let long = "é".repeat(100);
    assert_eq!(
        opensky::status_error(503, "503 Service Unavailable", &long),
        Some(format!("opensky http 503 Service Unavailable: {}", "é".repeat(80)))
    );
    assert_eq!(opensky::status_error(199, "199", "").as_deref(), Some("opensky http 199: "));
}

#[test]
fn reports_are_converted() {
    let mut a = report("  A1B2C3 ");
    a.flight = Some("UAL215  ".to_string());
    a.r = Some("N12345".to_string());
    a.alt_baro = Some(parse("3281"));
    a.gs = Some(num(100.0));
    a.track = Some(num(90.0));
    let c = convert(&a, &conversions).unwrap();
    assert_eq!(c.icao24, "a1b2c3");
    assert_eq!(c.callsign.as_deref(), Some("UAL215"));
    assert_eq!(c.origin_country, "United States");
    assert_eq!((c.longitude, c.latitude), (num(-90.5), num(30.0)));
    assert_eq!(c.altitude_m, Some(num(1000.0)));
    assert_eq!(c.velocity_ms, Some(num(51.44)));
    assert_eq!(c.heading, Some(num(90.0)));
    assert!(!c.on_ground);
}

#[test]
fn reports_from_the_ground() {
    let mut a = report("abc");
    a.alt_baro = Some(parse("\"ground\""));
    let c = convert(&a, &conversions).unwrap();
    assert!(c.on_ground);
    assert_eq!(c.altitude_m, None);
    a.alt_baro = Some(parse("\"Ground\""));
    assert!(!convert(&a, &conversions).unwrap().on_ground);
    a.alt_baro = Some(parse("true"));
    let d = convert(&a, &conversions).unwrap();
    assert!(!d.on_ground && d.altitude_m.is_none());
}

#[test]
fn reports_without_a_position_are_none() {
    let mut a = report("abc");
    a.lat = None;
    assert!(convert(&a, &conversions).is_none());
    let mut b = report("abc");
    b.lon = None;
    assert!(convert(&b, &conversions).is_none());
}

#[test]
fn registrations_tell_the_country() {
    let cases = [
        ("N1", "United States"),
        ("C-FABC", "Canada"),
        ("CFABC", ""),
        ("XA-ABC", "Mexico"),
        ("XBABC", "Mexico"),
        ("XC1", "Mexico"),
        ("XD1", ""),
        ("G-ABCD", "United Kingdom"),
        ("", ""),
    ];
    for (r, country) in cases {
        assert_eq!(registration_country(&Some(r.to_string())), country);
    }
    assert_eq!(registration_country(&None), "");
}

#[test]
fn batches_leave_stale_positions_out() {
    let mut fresh = report("f1");
    fresh.seen_pos = Some(num(59.999));
    let mut edge = report("f2");
    edge.seen_pos = Some(num(60.0));
    let mut lost = report("f3");
    lost.lat = None;
    let unknown = report("f4");
    let mut stale = report("f5");
    stale.seen_pos = Some(num(60.00000000000001));
    let mut senseless = report("f6");
    senseless.seen_pos = Some(num(f64::NAN));
    let r = AdsbLolResponse { ac: Some(vec![fresh, edge, lost, unknown, stale, senseless]), now: Some(1_700_000_000_999) };
    let (t, all) = batch_of(&r, &conversions);
    assert_eq!(t, 1_700_000_000);
    let names: Vec<&str> = all.iter().map(|a| a.icao24.as_str()).collect();
    assert_eq!(names, vec!["f1", "f2", "f4"]);
}

#[test]
fn batches_may_be_empty() {
    let (t, all) = batch_of(&AdsbLolResponse { ac: None, now: None }, &conversions);
    assert_eq!((t, all.len()), (0, 0));
    let (t, _) = batch_of(&AdsbLolResponse { ac: None, now: Some(-1500) }, &conversions);
    assert_eq!(t, -1);
}

#[test]
fn adsb_errors_name_the_status() {
    assert_eq!(adsb_lol::status_error(204, "204 No Content"), None);
    assert_eq!(
        adsb_lol::status_error(500, "500 Internal Server Error").as_deref(),
        Some("adsb.lol http 500 Internal Server Error")
    );
    assert_eq!(adsb_lol::status_error(300, "300").as_deref(), Some("adsb.lol http 300"));
}

fn layer(cover: &str, base: Option<i32>) -> CloudLayer {
    CloudLayer { cover: cover.to_string(), base }
}

#[test]
fn ceiling_is_the_lowest_closed_layer() {
    let clouds = Some(vec![
        layer("FEW", Some(800)),
        layer("OVC", Some(4500)),
        layer("BKN", Some(2500)),
        layer("BKN", None),
        layer("SCT", Some(1200)),
    ]);
    assert_eq!(compute_ceiling_ft(&clouds), Some(2500));
    assert_eq!(compute_ceiling_ft(&Some(vec![layer("SCT", Some(1200))])), None);
    assert_eq!(compute_ceiling_ft(&Some(vec![layer("OVC", Some(-100)), layer("OVC", Some(0))])), Some(-100));
    assert_eq!(compute_ceiling_ft(&Some(vec![])), None);
    assert_eq!(compute_ceiling_ft(&None), None);
}

#[test]
fn wind_directions_are_integers() {
    assert_eq!(value_as_i32(&Some(parse("270"))), Some(270));
    assert_eq!(value_as_i32(&Some(parse("\"VRB\""))), None);
    assert_eq!(value_as_i32(&Some(parse("270.5"))), None);
    assert_eq!(value_as_i32(&Some(parse("4294967297"))), Some(1));
    assert_eq!(value_as_i32(&Some(parse("2147483648"))), Some(i32::MIN));
    assert_eq!(value_as_i32(&Some(parse("-2147483649"))), Some(i32::MAX));
    assert_eq!(value_as_i32(&None), None);
}

#[test]
fn visibilities_are_texts() {
    assert_eq!(value_as_visib_string(&Some(parse("10"))).as_deref(), Some("10"));
    assert_eq!(value_as_visib_string(&Some(parse("2.5"))).as_deref(), Some("2.5"));
    assert_eq!(value_as_visib_string(&Some(parse("\"10+\""))).as_deref(), Some("10+"));
    assert_eq!(value_as_visib_string(&Some(parse("null"))), None);
    assert_eq!(value_as_visib_string(&None), None);
}

#[test]
fn weather_is_that_of_the_first_report() {
    let metar = |id: &str| MetarRaw {
        icao_id: id.to_string(),
        obs_time: 1_700_000_000,
        temp: Some(num(21.5)),
        dewp: Some(num(19.0)),
        wdir: Some(parse("90")),
        wspd: Some(num(7.0)),
        wgst: None,
        visib: Some(parse("\"10+\"")),
        altim: Some(num(1015.5)),
        wx_string: Some("-RA".to_string()),
        clouds: Some(vec![layer("BKN", Some(1800))]),
        flt_cat: Some("MVFR".to_string()),
        raw_ob: format!("{} raw", id),
    };
    let w = first_observation(vec![metar("KAPS"), metar("KMSY")]).unwrap();
    assert_eq!(w.station, "KAPS");
    assert_eq!(w.observed_at_s, 1_700_000_000);
    assert_eq!(w.temp_c, Some(num(21.5)));
    assert_eq!(w.dewpoint_c, Some(num(19.0)));
    assert_eq!(w.wind_dir_deg, Some(90));
    assert_eq!(w.wind_speed_kt, Some(num(7.0)));
    assert_eq!(w.wind_gust_kt, None);
    assert_eq!(w.visibility_sm.as_deref(), Some("10+"));
    assert_eq!(w.altimeter_hpa, Some(num(1015.5)));
    assert_eq!(w.ceiling_ft, Some(1800));
    assert_eq!(w.flight_category.as_deref(), Some("MVFR"));
    assert_eq!(w.wx_string.as_deref(), Some("-RA"));
    assert_eq!(w.raw, "KAPS raw");
    assert_eq!(
        first_observation(vec![]).unwrap_err(),
        "metar response had no observations"
    );
}

#[test]
fn weather_is_kept_where_a_request_fails() {
    let weather = |raw: &str| Weather {
        station: "KAPS".to_string(),
        observed_at_s: 1,
        temp_c: None,
        dewpoint_c: None,
        wind_dir_deg: None,
        wind_speed_kt: None,
        wind_gust_kt: None,
        visibility_sm: None,
        altimeter_hpa: None,
        ceiling_ft: None,
        flight_category: None,
        wx_string: None,
        raw: raw.to_string(),
    };
    assert!(weather_after(None, Err("x".to_string())).is_none());
    assert_eq!(weather_after(Some(weather("a")), Err("x".to_string())).unwrap().raw, "a");
    assert_eq!(weather_after(Some(weather("a")), Ok(weather("b"))).unwrap().raw, "b");
}

#[test]
fn weather_requests_and_errors() {
    assert_eq!(
        metar_url("KAPS"),
        "https://aviationweather.gov/api/data/metar?ids=KAPS&format=json"
    );
    assert_eq!(weather::status_error(200, "200 OK"), None);
    assert_eq!(
        weather::status_error(404, "404 Not Found").as_deref(),
        Some("metar http 404 Not Found")
    );
}

#[test]
fn both_credentials_are_needed() {
    let id = || Some("id".to_string());
    let secret = || Some("secret".to_string());
    assert!(OpenSkyAuth::from_credentials(None, secret()).is_none());
    assert!(OpenSkyAuth::from_credentials(id(), None).is_none());
    let auth = OpenSkyAuth::from_credentials(id(), secret()).unwrap();
    assert_eq!(auth.client_id, "id");
    assert_eq!(auth.client_secret, "secret");
    assert_eq!(auth.cached_bearer(0), None);
}

#[test]
fn tokens_are_reused_until_half_a_minute_before_expiry() {
    let mut auth =
        OpenSkyAuth::from_credentials(Some("id".to_string()), Some("s".to_string())).unwrap();
    auth.store_token("t".to_string(), 1800, 1000);
    assert_eq!(auth.cached_bearer(1000).as_deref(), Some("t"));
    assert_eq!(auth.cached_bearer(2769).as_deref(), Some("t"));
    assert_eq!(auth.cached_bearer(2770), None);
    auth.store_token("u".to_string(), 20, 0);
    assert_eq!(auth.cached_bearer(0), None);
    auth.store_token("v".to_string(), u64::MAX, 5);
    assert_eq!(auth.cached_bearer(u64::MAX - 31).as_deref(), Some("v"));
    assert_eq!(auth.cached_bearer(u64::MAX - 30), None);
}

#[test]
fn credentials_are_exchanged_for_tokens() {
    assert!(matches!(access(None, 0), Access::Anonymous));
    let mut auth =
        OpenSkyAuth::from_credentials(Some("id".to_string()), Some("s".to_string())).unwrap();
    match access(Some(&auth), 0) {
        Access::Exchange(q) => {
            assert_eq!(q.grant_type, "client_credentials");
            assert_eq!((q.client_id.as_str(), q.client_secret.as_str()), ("id", "s"));
        }
        _ => panic!("an exchange was due"),
    }
    auth.store_token("t".to_string(), 1800, 1000);
    assert!(matches!(access(Some(&auth), 2769), Access::Bearer(t) if t == "t"));
    assert!(matches!(access(Some(&auth), 2770), Access::Exchange(q) if q.client_id == "id"));
}

#[test]
fn the_clock_counts_milliseconds_since_the_epoch() {
    let before = SystemTime::now().duration_since(UNIX_EPOCH).unwrap().as_millis();
    let now = now_ms().unwrap();
    let low = now_ms_u64().unwrap();
    let after = SystemTime::now().duration_since(UNIX_EPOCH).unwrap().as_millis();
    assert!(before <= now && now <= after);
    assert!(now <= low as u128 && low as u128 <= after);
}

#[test]
fn moments_are_read_in_whole_milliseconds() {
    assert_eq!(ms_at(UNIX_EPOCH), Some(0));
    assert_eq!(ms_at(UNIX_EPOCH + Duration::from_nanos(1_999_999)), Some(1));
    assert_eq!(ms_at(UNIX_EPOCH + Duration::from_nanos(2_000_000)), Some(2));
    assert_eq!(ms_at(UNIX_EPOCH - Duration::from_nanos(1_000_000)), None);
}

#[test]
fn long_readings_lose_their_upper_bits() {
    assert_eq!(low_ms(Some(7)), Some(7));
    assert_eq!(low_ms(Some(u64::MAX as u128 + 6)), Some(5));
    assert_eq!(low_ms(None), None);
}
