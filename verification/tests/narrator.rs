use flightlive::formula::Formula;
use flightlive::measure::Real;
use flightlive::narrator::{behavior_label, build_prompt, clean_output, narrate};
use flightlive::types::{Aircraft, AudibleEvent, Behavior, Conflict, Snapshot};
use std::collections::VecDeque;

fn num(x: f64) -> Real {
    Real { bits: x.to_bits() }
}

fn float(x: Real) -> f64 {
    f64::from_bits(x.bits)
}

fn conversions(q: Formula) -> Real {
    match q {
        Formula::MetresToFeet { metres } => num(float(metres) * 3.281),
        Formula::MetresPerSecondToKnots { speed_ms } => num(float(speed_ms) * 1.944),
        _ => panic!("not asked of a prompt"),
    }
}

fn show(x: Real, places: usize) -> String {
    format!("{:.*}", places, float(x))
}

fn plane(icao24: &str, behavior: Behavior) -> Aircraft {
    Aircraft {
        icao24: icao24.to_string(),
        callsign: None,
        origin_country: "Canada".to_string(),
        longitude: num(0.0),
        latitude: num(0.0),
        altitude_m: None,
        velocity_ms: None,
        heading: None,
        on_ground: false,
        behavior,
        trail: vec![],
    }
}

fn empty() -> Snapshot {
    Snapshot {
        time: 0,
        fetched_at_ms: 0,
        aircraft: vec![],
        conflicts: vec![],
        audible: vec![],
        listener: (num(0.0), num(0.0)),
        weather: None,
    }
}

#[test]
fn prefaces_and_marks_are_taken_off() {
    assert_eq!(clean_output("  Update:  Two jets. \n"), "Two jets.");
    assert_eq!(clean_output("Here is \"a jet\""), "a jet");
    assert_eq!(clean_output("Here's: x"), ": x");
    assert_eq!(clean_output("Update: Here is Currently, At the moment, all quiet"), "all quiet");
    assert_eq!(clean_output("Currently, Update: x"), "Update: x");
    assert_eq!(clean_output("'quoted'"), "quoted");
    assert_eq!(clean_output("\" x \""), " x ");
    assert_eq!(clean_output("At the moment,"), "");
    assert_eq!(clean_output(""), "");
}

#[test]
fn empty_answers_are_no_narrations() {
    let mut recent: VecDeque<String> = VecDeque::from(vec!["a".to_string()]);
    assert!(narrate(" \n ", 1, 2, &mut recent).is_none());
    assert_eq!(recent, VecDeque::from(vec!["a".to_string()]));
}

#[test]
fn five_narrations_are_remembered() {
    let mut recent: VecDeque<String> = VecDeque::new();
    for k in 0..8u128 {
        let n = narrate(&format!("Update: {}", k), k, 3, &mut recent).unwrap();
        assert_eq!(n.text, format!("{}", k));
        assert_eq!((n.at_ms, n.aircraft_count), (k, 3));
        assert!(recent.len() <= 5);
        assert_eq!(recent.back(), Some(&n.text));
    }
    let kept: Vec<&str> = recent.iter().map(|s| s.as_str()).collect();
    assert_eq!(kept, vec!["3", "4", "5", "6", "7"]);
}

#[test]
fn behaviors_have_names() {
    for b in [
        Behavior::Cruise,
        Behavior::Approach,
        Behavior::Holding,
        Behavior::Hovering,
        Behavior::Climbing,
        Behavior::Descending,
        Behavior::Taxiing,
        Behavior::Enroute,
    ] {
        assert_eq!(behavior_label(b), format!("{:?}", b));
    }
}

#[test]
fn prompt_on_an_empty_sky() {
    assert_eq!(
        build_prompt(&empty(), &[], &conversions, &show),
        "AIRSPACE STATE — 0 aircraft tracked.\n\nAIRCRAFT (notable):\n\n\
         Write 2-3 short sentences narrating the most notable activity right now."
    );
}

#[test]
fn prompt_with_all_sections() {
    let mut snap = empty();
    let mut jet = plane("a1", Behavior::Cruise);
    jet.callsign = Some("UAL1".to_string());
    jet.altitude_m = Some(num(1000.5));
    jet.velocity_ms = Some(num(100.0));
    jet.heading = Some(num(270.9));
    snap.aircraft = vec![jet, plane("h1", Behavior::Hovering), plane("h2", Behavior::Hovering)];
    snap.conflicts = vec![Conflict {
        a_icao: "a1".to_string(),
        b_icao: "h1".to_string(),
        a_callsign: Some("UAL1".to_string()),
        b_callsign: None,
        horizontal_nm: num(1.26),
        vertical_ft: num(328.1),
        seconds_from_now: num(60.0),
        at_lng: num(0.0),
        at_lat: num(0.0),
    }];
    snap.audible = vec![AudibleEvent {
        icao24: "h1".to_string(),
        callsign: None,
        closest_approach_in_s: num(35.0),
        closest_distance_nm: num(0.44),
        closest_slant_m: num(900.0),
        estimated_db: num(70.6),
    }];
    let recent = vec!["Quiet.".to_string()];
    let due = "AIRSPACE STATE — 3 aircraft tracked.\n\n\
        BEHAVIOR BREAKDOWN:\n  1 × Cruise\n  2 × Hovering\n\n\
        AIRCRAFT (notable):\n\
        \x20 h1 (Canada): Hovering, ground, —, heading 0°\n\
        \x20 h2 (Canada): Hovering, ground, —, heading 0°\n\
        \x20 UAL1 (Canada): Cruise, 3282 ft, 194 kt, heading 270°\n\n\
        CONFLICTS: 1 pair(s) inside 3 NM / 1000 ft.\n\
        \x20 UAL1 ↔ h1: 1.3 NM, 328 ft, in 60 s\n\n\
        AUDIBLE AT REFINERY: 1 aircraft within 4 min.\n\
        \x20 h1: closest in 35 s at 0.4 NM (71 dB)\n\n\
        RECENT NARRATIONS (do NOT repeat these):\n\
        \x20 - \"Quiet.\"\n\n\
        Write 2-3 short sentences narrating the most notable activity right now.";
    assert_eq!(build_prompt(&snap, &recent, &conversions, &show), due);
}

#[test]
fn prompts_name_the_eight_most_notable() {
    let order = [
        ("taxi", Behavior::Taxiing),
        ("cruise", Behavior::Cruise),
        ("way", Behavior::Enroute),
        ("down", Behavior::Descending),
        ("up", Behavior::Climbing),
        ("final", Behavior::Approach),
        ("hold", Behavior::Holding),
        ("hover", Behavior::Hovering),
        ("way2", Behavior::Enroute),
    ];
    let mut snap = empty();
    snap.aircraft = order.iter().map(|(n, b)| plane(n, *b)).collect();
    let text = build_prompt(&snap, &[], &conversions, &show);
    let named: Vec<&str> = text
        .lines()
        .filter(|l| l.contains("(Canada)"))
        .map(|l| l.trim().split(' ').next().unwrap())
        .collect();
    assert_eq!(named, vec!["hold", "hover", "final", "down", "up", "way", "way2", "cruise"]);
}

#[test]
fn prompts_name_three_conflicts_and_events() {
    let mut snap = empty();
    for k in 0..5 {
        snap.conflicts.push(Conflict {
            a_icao: format!("p{}", k),
            b_icao: "q".to_string(),
            a_callsign: None,
            b_callsign: None,
            horizontal_nm: num(1.0),
            vertical_ft: num(1.0),
            seconds_from_now: num(0.0),
            at_lng: num(0.0),
            at_lat: num(0.0),
        });
        snap.audible.push(AudibleEvent {
            icao24: format!("e{}", k),
            callsign: Some(format!("E{}", k)),
            closest_approach_in_s: num(1.0),
            closest_distance_nm: num(1.0),
            closest_slant_m: num(1.0),
            estimated_db: num(60.0),
        });
    }
    let text = build_prompt(&snap, &[], &conversions, &show);
    assert!(text.contains("CONFLICTS: 5 pair(s)") && text.contains("AUDIBLE AT REFINERY: 5 aircraft"));
    assert!(text.contains("  p2 ↔ q: 1.0 NM, 1 ft, in 0 s\n") && !text.contains("p3"));
    assert!(text.contains("  E2: closest in 1 s at 1.0 NM (60 dB)\n") && !text.contains("E3"));
}
