//! Comments on the airspace: the prompt for a language model, and what is made of its
//! answer.

use crate::formula::{computes, is_unit, Formula};
use crate::measure::Real;
use crate::order::{sorted_by, stable_sort};
use crate::text::{
    after_prefix, decimal, decimal_text, signed_decimal, signed_decimal_text, trim, trimmed,
    unquote, unquoted,
};
use crate::types::{
    contents, Aircraft, AircraftView, AudibleEvent, Behavior, Conflict, ConflictView, EventView,
    Narration, Snapshot, SnapshotView, RECENT_NARRATIONS_MAX,
};
use std::collections::VecDeque;
use vstd::prelude::*;
use vstd::string::*;

verus! {

/// `t` without a preface and the white space behind it.
pub open spec fn without_preface(t: Seq<char>, preface: Seq<char>) -> Seq<char> {
    if preface.is_prefix_of(t) {
        trimmed(t.skip(preface.len() as int))
    } else {
        t
    }
}

/// An answer without white space, prefaces and quotation marks around it.
pub open spec fn cleaned(s: Seq<char>) -> Seq<char> {
    let t = trimmed(s);
    let t = without_preface(t, "Update:"@);
    let t = without_preface(t, "Here is"@);
    let t = without_preface(t, "Here's"@);
    let t = without_preface(t, "Currently,"@);
    let t = without_preface(t, "At the moment,"@);
    unquoted(t)
}

fn drop_preface(t: String, preface: &str) -> (r: String)
    ensures
        r@ == without_preface(t@, preface@),
{
    match after_prefix(t.as_str(), preface) {
        Some(rest) => trim(rest.as_str()),
        None => t,
    }
}

/// An answer without white space, prefaces and quotation marks around it.
pub fn clean_output(s: &str) -> (r: String)
    ensures
        r@ == cleaned(s@),
{
    let t = trim(s);
    let t = drop_preface(t, "Update:");
    let t = drop_preface(t, "Here is");
    let t = drop_preface(t, "Here's");
    let t = drop_preface(t, "Currently,");
    let t = drop_preface(t, "At the moment,");
    unquote(t.as_str())
}

/// A formatter writes every number.
pub open spec fn is_formatter<S: Fn(Real, usize) -> String>(show: S) -> bool {
    forall|x: Real, places: usize| call_requires(show, (x, places))
}

/// The formatter's texts, for a number and its places behind the point, are those of the
/// mathematical function `g`.
pub open spec fn writes<S: Fn(Real, usize) -> String>(
    show: S,
    g: spec_fn(Real, usize) -> Seq<char>,
) -> bool {
    forall|x: Real, places: usize, r: String|
        call_ensures(show, (x, places), r) ==> r@ == g(x, places)
}

/// The name of a behavior.
pub open spec fn behavior_name(b: Behavior) -> Seq<char> {
    match b {
        Behavior::Cruise => "Cruise"@,
        Behavior::Approach => "Approach"@,
        Behavior::Holding => "Holding"@,
        Behavior::Hovering => "Hovering"@,
        Behavior::Climbing => "Climbing"@,
        Behavior::Descending => "Descending"@,
        Behavior::Taxiing => "Taxiing"@,
        Behavior::Enroute => "Enroute"@,
    }
}

/// How notable a behavior is; less is more.
pub open spec fn notability(b: Behavior) -> int {
    match b {
        Behavior::Hovering | Behavior::Holding => 0,
        Behavior::Approach => 1,
        Behavior::Climbing | Behavior::Descending => 2,
        Behavior::Enroute => 3,
        Behavior::Cruise => 4,
        Behavior::Taxiing => 5,
    }
}

/// Order of aircraft: the more notable first.
pub open spec fn notable_order() -> spec_fn(AircraftView, AircraftView) -> bool {
    |x: AircraftView, y: AircraftView| notability(x.behavior) <= notability(y.behavior)
}

/// How many aircraft of a list behave in a way.
pub open spec fn count_of(s: Seq<AircraftView>, b: Behavior) -> nat
    decreases s.len(),
{
    if s.len() == 0 {
        0
    } else {
        count_of(s.drop_last(), b) + if s.last().behavior == b {
            1nat
        } else {
            0nat
        }
    }
}

/// The line on how many aircraft behave in a way; none where no aircraft does.
pub open spec fn count_line(s: Seq<AircraftView>, b: Behavior) -> Seq<char> {
    if count_of(s, b) == 0 {
        Seq::empty()
    } else {
        "  "@ + decimal(count_of(s, b)) + " × "@ + behavior_name(b) + "\n"@
    }
}

/// The section on how the aircraft behave.
pub open spec fn behavior_section(s: Seq<AircraftView>) -> Seq<char> {
    if s.len() == 0 {
        Seq::empty()
    } else {
        "BEHAVIOR BREAKDOWN:\n"@ + count_line(s, Behavior::Cruise) + count_line(
            s,
            Behavior::Approach,
        ) + count_line(s, Behavior::Holding) + count_line(s, Behavior::Hovering) + count_line(
            s,
            Behavior::Climbing,
        ) + count_line(s, Behavior::Descending) + count_line(s, Behavior::Taxiing) + count_line(
            s,
            Behavior::Enroute,
        ) + "\n"@
    }
}

/// What an aircraft is called: its callsign, or its address where it has none.
pub open spec fn called(callsign: Option<Seq<char>>, icao24: Seq<char>) -> Seq<char> {
    match callsign {
        Some(c) => c,
        None => icao24,
    }
}

/// The altitude in whole feet.
pub open spec fn altitude_words(f: spec_fn(Formula) -> Real, altitude_m: Option<Real>) -> Seq<char> {
    match altitude_m {
        Some(metres) => signed_decimal(f(Formula::MetresToFeet { metres }).whole_i32()) + " ft"@,
        None => "ground"@,
    }
}

/// The speed in whole knots.
pub open spec fn speed_words(f: spec_fn(Formula) -> Real, velocity_ms: Option<Real>) -> Seq<char> {
    match velocity_ms {
        Some(speed_ms) => signed_decimal(
            f(Formula::MetresPerSecondToKnots { speed_ms }).whole_i32(),
        ) + " kt"@,
        None => "—"@,
    }
}

/// The line on an aircraft.
pub open spec fn aircraft_line(f: spec_fn(Formula) -> Real, a: AircraftView) -> Seq<char> {
    "  "@ + called(a.callsign, a.icao24) + " ("@ + a.origin_country + "): "@ + behavior_name(
        a.behavior,
    ) + ", "@ + altitude_words(f, a.altitude_m) + ", "@ + speed_words(f, a.velocity_ms)
        + ", heading "@ + signed_decimal(crate::analysis::or_zero(a.heading).whole_i32()) + "°\n"@
}

/// The lines on the aircraft of a list.
pub open spec fn aircraft_lines(f: spec_fn(Formula) -> Real, s: Seq<AircraftView>) -> Seq<char>
    decreases s.len(),
{
    if s.len() == 0 {
        Seq::empty()
    } else {
        aircraft_lines(f, s.drop_last()) + aircraft_line(f, s.last())
    }
}

/// The first `n` of a list, or all where there are fewer.
pub open spec fn at_most<V>(s: Seq<V>, n: int) -> Seq<V> {
    if s.len() <= n {
        s
    } else {
        s.take(n)
    }
}

/// The section on the most notable aircraft.
pub open spec fn aircraft_section(f: spec_fn(Formula) -> Real, s: Seq<AircraftView>) -> Seq<char> {
    "AIRCRAFT (notable):\n"@ + aircraft_lines(f, at_most(sorted_by(s, notable_order()), 8)) + "\n"@
}

/// The line on a conflict.
pub open spec fn conflict_line(g: spec_fn(Real, usize) -> Seq<char>, c: ConflictView) -> Seq<char> {
    "  "@ + called(c.a_callsign, c.a_icao) + " ↔ "@ + called(c.b_callsign, c.b_icao) + ": "@ + g(
        c.horizontal_nm,
        1,
    ) + " NM, "@ + g(c.vertical_ft, 0) + " ft, in "@ + g(c.seconds_from_now, 0) + " s\n"@
}

/// The lines on the conflicts of a list.
pub open spec fn conflict_lines(g: spec_fn(Real, usize) -> Seq<char>, s: Seq<ConflictView>) -> Seq<
    char,
>
    decreases s.len(),
{
    if s.len() == 0 {
        Seq::empty()
    } else {
        conflict_lines(g, s.drop_last()) + conflict_line(g, s.last())
    }
}

/// The section on the conflicts.
pub open spec fn conflict_section(
    g: spec_fn(Real, usize) -> Seq<char>,
    s: Seq<ConflictView>,
) -> Seq<char> {
    if s.len() == 0 {
        Seq::empty()
    } else {
        "CONFLICTS: "@ + decimal(s.len()) + " pair(s) inside 3 NM / 1000 ft.\n"@ + conflict_lines(
            g,
            at_most(s, 3),
        ) + "\n"@
    }
}

/// The line on an aircraft that will be heard.
pub open spec fn event_line(g: spec_fn(Real, usize) -> Seq<char>, e: EventView) -> Seq<char> {
    "  "@ + called(e.callsign, e.icao24) + ": closest in "@ + signed_decimal(
        e.closest_approach_in_s.whole_i32(),
    ) + " s at "@ + g(e.closest_distance_nm, 1) + " NM ("@ + g(e.estimated_db, 0) + " dB)\n"@
}

/// The lines on the events of a list.
pub open spec fn event_lines(g: spec_fn(Real, usize) -> Seq<char>, s: Seq<EventView>) -> Seq<char>
    decreases s.len(),
{
    if s.len() == 0 {
        Seq::empty()
    } else {
        event_lines(g, s.drop_last()) + event_line(g, s.last())
    }
}

/// The section on the aircraft that will be heard.
pub open spec fn event_section(
    g: spec_fn(Real, usize) -> Seq<char>,
    s: Seq<EventView>,
) -> Seq<char> {
    if s.len() == 0 {
        Seq::empty()
    } else {
        "AUDIBLE AT REFINERY: "@ + decimal(s.len()) + " aircraft within 4 min.\n"@ + event_lines(
            g,
            at_most(s, 3),
        ) + "\n"@
    }
}

/// The lines on former narrations.
pub open spec fn recent_lines(s: Seq<String>) -> Seq<char>
    decreases s.len(),
{
    if s.len() == 0 {
        Seq::empty()
    } else {
        recent_lines(s.drop_last()) + "  - \""@ + s.last()@ + "\"\n"@
    }
}

/// The section on former narrations.
pub open spec fn recent_section(s: Seq<String>) -> Seq<char> {
    if s.len() == 0 {
        Seq::empty()
    } else {
        "RECENT NARRATIONS (do NOT repeat these):\n"@ + recent_lines(s) + "\n"@
    }
}

/// The prompt on a snapshot.
pub open spec fn prompt(
    f: spec_fn(Formula) -> Real,
    g: spec_fn(Real, usize) -> Seq<char>,
    snap: SnapshotView,
    recent: Seq<String>,
) -> Seq<char> {
    "AIRSPACE STATE — "@ + decimal(snap.aircraft.len()) + " aircraft tracked.\n\n"@
        + behavior_section(snap.aircraft) + aircraft_section(f, snap.aircraft) + conflict_section(
        g,
        snap.conflicts,
    ) + event_section(g, snap.audible) + recent_section(recent)
        + "Write 2-3 short sentences narrating the most notable activity right now."@
}

/// The name of a behavior.
pub fn behavior_label(b: Behavior) -> (r: &'static str)
    ensures
        r@ == behavior_name(b),
{
    match b {
        Behavior::Cruise => "Cruise",
        Behavior::Approach => "Approach",
        Behavior::Holding => "Holding",
        Behavior::Hovering => "Hovering",
        Behavior::Climbing => "Climbing",
        Behavior::Descending => "Descending",
        Behavior::Taxiing => "Taxiing",
        Behavior::Enroute => "Enroute",
    }
}

fn priority(b: Behavior) -> (r: u8)
    ensures
        r == notability(b),
{
    match b {
        Behavior::Hovering | Behavior::Holding => 0,
        Behavior::Approach => 1,
        Behavior::Climbing | Behavior::Descending => 2,
        Behavior::Enroute => 3,
        Behavior::Cruise => 4,
        Behavior::Taxiing => 5,
    }
}

fn count_text(aircraft: &Vec<Aircraft>, b: Behavior) -> (r: String)
    ensures
        r@ == count_line(contents(aircraft@), b),
{
    let ghost s = contents(aircraft@);
    let n: usize = aircraft.len();
    let mut count: usize = 0;
    let mut i: usize = 0;
    assert(s.take(0) =~= Seq::<AircraftView>::empty());
    while i < n
        invariant
            n == aircraft@.len(),
            i <= n,
            s == contents(aircraft@),
            count <= i,
            count == count_of(s.take(i as int), b),
        decreases n - i,
    {
        proof {
            assert(s.take(i + 1).drop_last() =~= s.take(i as int));
            assert(s.take(i + 1).last() == aircraft@[i as int]@);
        }
        if aircraft[i].behavior == b {
            count = count + 1;
        }
        i = i + 1;
    }
    assert(s.take(n as int) =~= s);
    if count == 0 {
        String::new()
    } else {
        let mut out = "  ".to_owned();
        out.append(decimal_text(count as u64).as_str());
        out.append(" × ");
        out.append(behavior_label(b));
        out.append("\n");
        out
    }
}

fn behavior_text(aircraft: &Vec<Aircraft>) -> (r: String)
    ensures
        r@ == behavior_section(contents(aircraft@)),
{
    if aircraft.len() == 0 {
        return String::new();
    }
    let mut out = "BEHAVIOR BREAKDOWN:\n".to_owned();
    out.append(count_text(aircraft, Behavior::Cruise).as_str());
    out.append(count_text(aircraft, Behavior::Approach).as_str());
    out.append(count_text(aircraft, Behavior::Holding).as_str());
    out.append(count_text(aircraft, Behavior::Hovering).as_str());
    out.append(count_text(aircraft, Behavior::Climbing).as_str());
    out.append(count_text(aircraft, Behavior::Descending).as_str());
    out.append(count_text(aircraft, Behavior::Taxiing).as_str());
    out.append(count_text(aircraft, Behavior::Enroute).as_str());
    out.append("\n");
    out
}

fn name_of<'a>(callsign: &'a Option<String>, icao24: &'a String) -> (r: &'a str)
    ensures
        r@ == called(crate::text::opt_text(*callsign), icao24@),
{
    match callsign {
        Some(c) => c.as_str(),
        None => icao24.as_str(),
    }
}

fn aircraft_text<U: Fn(Formula) -> Real>(a: &Aircraft, unit: &U) -> (r: String)
    requires
        is_unit(*unit),
    ensures
        forall|f: spec_fn(Formula) -> Real| #[trigger]
            computes(*unit, f) ==> r@ == aircraft_line(f, a@),
{
    let altitude = match a.altitude_m {
        Some(metres) => {
            let feet: i32 = unit(Formula::MetresToFeet { metres }).to_i32();
            let mut s = signed_decimal_text(feet as i64);
            s.append(" ft");
            s
        },
        None => "ground".to_owned(),
    };
    let speed = match a.velocity_ms {
        Some(speed_ms) => {
            let knots: i32 = unit(Formula::MetresPerSecondToKnots { speed_ms }).to_i32();
            let mut s = signed_decimal_text(knots as i64);
            s.append(" kt");
            s
        },
        None => "—".to_owned(),
    };
    let heading: i32 = crate::analysis::value_or_zero(a.heading).to_i32();
    let mut out = "  ".to_owned();
    out.append(name_of(&a.callsign, &a.icao24));
    out.append(" (");
    out.append(a.origin_country.as_str());
    out.append("): ");
    out.append(behavior_label(a.behavior));
    out.append(", ");
    out.append(altitude.as_str());
    out.append(", ");
    out.append(speed.as_str());
    out.append(", heading ");
    out.append(signed_decimal_text(heading as i64).as_str());
    out.append("°\n");
    out
}

fn aircraft_section_text<U: Fn(Formula) -> Real>(aircraft: &Vec<Aircraft>, unit: &U) -> (r: String)
    requires
        is_unit(*unit),
    ensures
        forall|f: spec_fn(Formula) -> Real| #[trigger]
            computes(*unit, f) ==> r@ == aircraft_section(f, contents(aircraft@)),
{
    let mut listed: Vec<&Aircraft> = Vec::new();
    let ghost all = contents(aircraft@);
    let n: usize = aircraft.len();
    let mut i: usize = 0;
    while i < n
        invariant
            n == aircraft@.len(),
            i <= n,
            all == contents(aircraft@),
            contents(listed@) =~= all.take(i as int),
        decreases n - i,
    {
        let ghost before = contents(listed@);
        let a: &Aircraft = &aircraft[i];
        listed.push(a);
        proof {
            assert(contents(listed@) =~= before.push(a@));
            assert(all.take(i + 1) =~= all.take(i as int).push(all[i as int]));
        }
        i = i + 1;
    }
    assert(all.take(n as int) =~= all);
    let le = |x: &&Aircraft, y: &&Aircraft| -> (b: bool)
        ensures
            b == notable_order()(x@, y@),
        { priority(x.behavior) <= priority(y.behavior) };
    let sorted = stable_sort(listed, &le, Ghost(notable_order()));
    let ghost order = contents(sorted@);
    let m: usize = if sorted.len() <= 8 {
        sorted.len()
    } else {
        8
    };
    let mut lines = String::new();
    let mut k: usize = 0;
    assert(order.take(0) =~= Seq::<AircraftView>::empty());
    while k < m
        invariant
            is_unit(*unit),
            m <= sorted@.len(),
            k <= m,
            order == contents(sorted@),
            forall|f: spec_fn(Formula) -> Real| #[trigger]
                computes(*unit, f) ==> lines@ == aircraft_lines(f, order.take(k as int)),
        decreases m - k,
    {
        proof {
            assert(order.take(k + 1).drop_last() =~= order.take(k as int));
            assert(order.take(k + 1).last() == sorted@[k as int]@);
        }
        lines.append(aircraft_text(sorted[k], unit).as_str());
        k = k + 1;
    }
    assert(order.take(m as int) =~= at_most(order, 8));
    let mut out = "AIRCRAFT (notable):\n".to_owned();
    out.append(lines.as_str());
    out.append("\n");
    out
}

fn conflict_section_text<S: Fn(Real, usize) -> String>(conflicts: &Vec<Conflict>, show: &S) -> (r:
    String)
    requires
        is_formatter(*show),
    ensures
        forall|g: spec_fn(Real, usize) -> Seq<char>| #[trigger]
            writes(*show, g) ==> r@ == conflict_section(g, contents(conflicts@)),
{
    let n: usize = conflicts.len();
    if n == 0 {
        return String::new();
    }
    let ghost all = contents(conflicts@);
    let m: usize = if n <= 3 {
        n
    } else {
        3
    };
    let mut lines = String::new();
    let mut k: usize = 0;
    assert(all.take(0) =~= Seq::<ConflictView>::empty());
    while k < m
        invariant
            is_formatter(*show),
            m <= conflicts@.len(),
            k <= m,
            all == contents(conflicts@),
            forall|g: spec_fn(Real, usize) -> Seq<char>| #[trigger]
                writes(*show, g) ==> lines@ == conflict_lines(g, all.take(k as int)),
        decreases m - k,
    {
        proof {
            assert(all.take(k + 1).drop_last() =~= all.take(k as int));
            assert(all.take(k + 1).last() == conflicts@[k as int]@);
        }
        let c = &conflicts[k];
        let mut line = "  ".to_owned();
        line.append(name_of(&c.a_callsign, &c.a_icao));
        line.append(" ↔ ");
        line.append(name_of(&c.b_callsign, &c.b_icao));
        line.append(": ");
        line.append(show(c.horizontal_nm, 1).as_str());
        line.append(" NM, ");
        line.append(show(c.vertical_ft, 0).as_str());
        line.append(" ft, in ");
        line.append(show(c.seconds_from_now, 0).as_str());
        line.append(" s\n");
        assert forall|g: spec_fn(Real, usize) -> Seq<char>| #[trigger]
            writes(*show, g) implies line@ == conflict_line(g, c@) by {}
        lines.append(line.as_str());
        k = k + 1;
    }
    assert(all.take(m as int) =~= at_most(all, 3));
    let mut out = "CONFLICTS: ".to_owned();
    out.append(decimal_text(n as u64).as_str());
    out.append(" pair(s) inside 3 NM / 1000 ft.\n");
    out.append(lines.as_str());
    out.append("\n");
    out
}

fn event_section_text<S: Fn(Real, usize) -> String>(events: &Vec<AudibleEvent>, show: &S) -> (r:
    String)
    requires
        is_formatter(*show),
    ensures
        forall|g: spec_fn(Real, usize) -> Seq<char>| #[trigger]
            writes(*show, g) ==> r@ == event_section(g, contents(events@)),
{
    let n: usize = events.len();
    if n == 0 {
        return String::new();
    }
    let ghost all = contents(events@);
    let m: usize = if n <= 3 {
        n
    } else {
        3
    };
    let mut lines = String::new();
    let mut k: usize = 0;
    assert(all.take(0) =~= Seq::<EventView>::empty());
    while k < m
        invariant
            is_formatter(*show),
            m <= events@.len(),
            k <= m,
            all == contents(events@),
            forall|g: spec_fn(Real, usize) -> Seq<char>| #[trigger]
                writes(*show, g) ==> lines@ == event_lines(g, all.take(k as int)),
        decreases m - k,
    {
        proof {
            assert(all.take(k + 1).drop_last() =~= all.take(k as int));
            assert(all.take(k + 1).last() == events@[k as int]@);
        }
        let e = &events[k];
        let seconds: i32 = e.closest_approach_in_s.to_i32();
        let mut line = "  ".to_owned();
        line.append(name_of(&e.callsign, &e.icao24));
        line.append(": closest in ");
        line.append(signed_decimal_text(seconds as i64).as_str());
        line.append(" s at ");
        line.append(show(e.closest_distance_nm, 1).as_str());
        line.append(" NM (");
        line.append(show(e.estimated_db, 0).as_str());
        line.append(" dB)\n");
        assert forall|g: spec_fn(Real, usize) -> Seq<char>| #[trigger]
            writes(*show, g) implies line@ == event_line(g, e@) by {}
        lines.append(line.as_str());
        k = k + 1;
    }
    assert(all.take(m as int) =~= at_most(all, 3));
    let mut out = "AUDIBLE AT REFINERY: ".to_owned();
    out.append(decimal_text(n as u64).as_str());
    out.append(" aircraft within 4 min.\n");
    out.append(lines.as_str());
    out.append("\n");
    out
}

fn recent_text(recent: &[String]) -> (r: String)
    ensures
        r@ == recent_section(recent@),
{
    let n: usize = recent.len();
    if n == 0 {
        return String::new();
    }
    let mut lines = String::new();
    let mut k: usize = 0;
    assert(recent@.take(0) =~= Seq::<String>::empty());
    while k < n
        invariant
            n == recent@.len(),
            k <= n,
            lines@ == recent_lines(recent@.take(k as int)),
        decreases n - k,
    {
        proof {
            assert(recent@.take(k + 1).drop_last() =~= recent@.take(k as int));
            assert(recent@.take(k + 1).last() == recent@[k as int]);
        }
        lines.append("  - \"");
        lines.append(recent[k].as_str());
        lines.append("\"\n");
        k = k + 1;
    }
    assert(recent@.take(n as int) =~= recent@);
    let mut out = "RECENT NARRATIONS (do NOT repeat these):\n".to_owned();
    out.append(lines.as_str());
    out.append("\n");
    out
}

/// The prompt on a snapshot.
pub fn build_prompt<U: Fn(Formula) -> Real, S: Fn(Real, usize) -> String>(
    snap: &Snapshot,
    recent: &[String],
    unit: &U,
    show: &S,
) -> (r: String)
    requires
        is_unit(*unit),
        is_formatter(*show),
    ensures
        forall|f: spec_fn(Formula) -> Real, g: spec_fn(Real, usize) -> Seq<char>| #[trigger]
            computes(*unit, f) && #[trigger] writes(*show, g) ==> r@ == prompt(
                f,
                g,
                snap@,
                recent@,
            ),
{
    let mut out = "AIRSPACE STATE — ".to_owned();
    out.append(decimal_text(snap.aircraft.len() as u64).as_str());
    out.append(" aircraft tracked.\n\n");
    out.append(behavior_text(&snap.aircraft).as_str());
    out.append(aircraft_section_text(&snap.aircraft, unit).as_str());
    out.append(conflict_section_text(&snap.conflicts, show).as_str());
    out.append(event_section_text(&snap.audible, show).as_str());
    out.append(recent_text(recent).as_str());
    out.append("Write 2-3 short sentences narrating the most notable activity right now.");
    out
}

/// The latest texts, as many as are remembered.
pub open spec fn remembered(texts: Seq<Seq<char>>) -> Seq<Seq<char>> {
    if texts.len() > RECENT_NARRATIONS_MAX {
        texts.skip(texts.len() - RECENT_NARRATIONS_MAX)
    } else {
        texts
    }
}

/// The contents of remembered texts.
pub open spec fn texts_of(recent: VecDeque<String>) -> Seq<Seq<char>> {
    recent@.map_values(|s: String| s@)
}

/// The narration that an answer makes at a moment; none where nothing is left of the
/// answer. It is remembered behind the former ones.
pub fn narrate(
    answer: &str,
    at_ms: u128,
    aircraft_count: usize,
    recent: &mut VecDeque<String>,
) -> (r: Option<Narration>)
    ensures
        r is None <==> cleaned(answer@).len() == 0,
        r is None ==> texts_of(*final(recent)) == texts_of(*old(recent)),
        r matches Some(n) ==> {
            &&& n.text@ == cleaned(answer@)
            &&& n.at_ms == at_ms
            &&& n.aircraft_count == aircraft_count
            &&& texts_of(*final(recent)) == remembered(
                texts_of(*old(recent)).push(cleaned(answer@)),
            )
        },
{
    let text = clean_output(answer);
    if text.as_str().is_empty() {
        return None;
    }
    let ghost full = recent@.push(text);
    recent.push_back(text.clone());
    assert(full.skip(0) =~= full);
    while recent.len() > RECENT_NARRATIONS_MAX
        invariant
            recent@.len() <= full.len(),
            recent@ == full.skip(full.len() - recent@.len()),
            recent@.len() >= RECENT_NARRATIONS_MAX || recent@.len() == full.len(),
        decreases recent@.len(),
    {
        let _ = recent.pop_front();
    }
    assert(texts_of(*recent) =~= remembered(texts_of(*old(recent)).push(text@)));
    Some(Narration { at_ms, text, aircraft_count })
}

/// No more than `RECENT_NARRATIONS_MAX` narrations are remembered, and the latest is the
/// last of them.
pub proof fn memory_is_bounded(texts: Seq<Seq<char>>, latest: Seq<char>)
    ensures
        0 < remembered(texts.push(latest)).len() <= RECENT_NARRATIONS_MAX,
        remembered(texts.push(latest)).last() == latest,
{
}

/// A text does not begin with `q` where it begins with `p` and these differ in a character.
proof fn lemma_other_beginning(p: Seq<char>, q: Seq<char>, rest: Seq<char>, i: int)
    requires
        0 <= i < p.len(),
        i < q.len(),
        p[i] != q[i],
    ensures
        !q.is_prefix_of(p + rest),
{
    if q.is_prefix_of(p + rest) {
        assert((p + rest).subrange(0, q.len() as int)[i] == q[i]);
        assert((p + rest)[i] == p[i]);
    }
}

/// An answer without a preface only loses the white space and then the quotation marks
/// around it.
pub proof fn answers_without_preface_are_only_unquoted(s: Seq<char>)
    requires
        !"Update:"@.is_prefix_of(trimmed(s)),
        !"Here is"@.is_prefix_of(trimmed(s)),
        !"Here's"@.is_prefix_of(trimmed(s)),
        !"Currently,"@.is_prefix_of(trimmed(s)),
        !"At the moment,"@.is_prefix_of(trimmed(s)),
    ensures
        cleaned(s) == unquoted(trimmed(s)),
{
}

/// A preface at the start of an answer is taken off, with the white space behind it.
pub proof fn a_preface_is_taken_off(s: Seq<char>, p: Seq<char>, rest: Seq<char>)
    requires
        p == "Update:"@ || p == "Here is"@ || p == "Here's"@ || p == "Currently,"@ || p
            == "At the moment,"@,
        trimmed(s) == p + rest,
        !"Update:"@.is_prefix_of(trimmed(rest)),
        !"Here is"@.is_prefix_of(trimmed(rest)),
        !"Here's"@.is_prefix_of(trimmed(rest)),
        !"Currently,"@.is_prefix_of(trimmed(rest)),
        !"At the moment,"@.is_prefix_of(trimmed(rest)),
    ensures
        cleaned(s) == unquoted(trimmed(rest)),
{
    reveal_strlit("Update:");
    reveal_strlit("Here is");
    reveal_strlit("Here's");
    reveal_strlit("Currently,");
    reveal_strlit("At the moment,");
    let t = p + rest;
    assert(t.skip(p.len() as int) =~= rest);
    assert(p.is_prefix_of(t)) by {
        assert(p =~= t.subrange(0, p.len() as int));
    }
    let a = "Update:"@;
    let b = "Here is"@;
    let c = "Here's"@;
    let d = "Currently,"@;
    let e = "At the moment,"@;
    if p == a {
        lemma_other_beginning(p, b, rest, 0);
    } else if p == b {
        lemma_other_beginning(p, a, rest, 0);
    } else if p == c {
        lemma_other_beginning(p, a, rest, 0);
        lemma_other_beginning(p, b, rest, 4);
    } else if p == d {
        lemma_other_beginning(p, a, rest, 0);
        lemma_other_beginning(p, b, rest, 0);
        lemma_other_beginning(p, c, rest, 0);
    } else {
        lemma_other_beginning(p, a, rest, 0);
        lemma_other_beginning(p, b, rest, 0);
        lemma_other_beginning(p, c, rest, 0);
        lemma_other_beginning(p, d, rest, 0);
    }
}

/// The line on an aircraft names it by its callsign, or by its address where it has none,
/// and tells its country, its behavior, its altitude in whole feet, its speed in whole knots
/// and its heading in whole degrees. An unknown altitude is on the ground, an unknown speed
/// a dash, and an unknown heading zero.
pub proof fn aircraft_lines_tell_the_aircraft(
    f: spec_fn(Formula) -> Real,
    a: AircraftView,
    name: Seq<char>,
    altitude: Seq<char>,
    speed: Seq<char>,
    heading: Real,
)
    requires
        a.callsign is Some ==> name == a.callsign->0,
        a.callsign is None ==> name == a.icao24,
        a.altitude_m matches Some(metres) ==> altitude == signed_decimal(
            f(Formula::MetresToFeet { metres }).whole_i32(),
        ) + " ft"@,
        a.altitude_m is None ==> altitude == "ground"@,
        a.velocity_ms matches Some(speed_ms) ==> speed == signed_decimal(
            f(Formula::MetresPerSecondToKnots { speed_ms }).whole_i32(),
        ) + " kt"@,
        a.velocity_ms is None ==> speed == "—"@,
        heading == (match a.heading {
            Some(x) => x,
            None => Real { bits: 0 },
        }),
    ensures
        aircraft_line(f, a) == "  "@ + name + " ("@ + a.origin_country + "): "@ + behavior_name(
            a.behavior,
        ) + ", "@ + altitude + ", "@ + speed + ", heading "@ + signed_decimal(heading.whole_i32())
            + "°\n"@,
{
    crate::measure::lemma_zero_is_small(1);
}

/// The line on a conflict names both aircraft, each by its callsign or else its address, and
/// tells the distances and the time.
pub proof fn conflict_lines_tell_the_conflict(
    g: spec_fn(Real, usize) -> Seq<char>,
    c: ConflictView,
    a: Seq<char>,
    b: Seq<char>,
)
    requires
        c.a_callsign is Some ==> a == c.a_callsign->0,
        c.a_callsign is None ==> a == c.a_icao,
        c.b_callsign is Some ==> b == c.b_callsign->0,
        c.b_callsign is None ==> b == c.b_icao,
    ensures
        conflict_line(g, c) == "  "@ + a + " ↔ "@ + b + ": "@ + g(c.horizontal_nm, 1) + " NM, "@
            + g(c.vertical_ft, 0) + " ft, in "@ + g(c.seconds_from_now, 0) + " s\n"@,
{
}

/// The line on an aircraft that will be heard names it by its callsign or else its address,
/// and tells when, at what distance over ground and how loud.
pub proof fn event_lines_tell_the_event(
    g: spec_fn(Real, usize) -> Seq<char>,
    e: EventView,
    name: Seq<char>,
)
    requires
        e.callsign is Some ==> name == e.callsign->0,
        e.callsign is None ==> name == e.icao24,
    ensures
        event_line(g, e) == "  "@ + name + ": closest in "@ + signed_decimal(
            e.closest_approach_in_s.whole_i32(),
        ) + " s at "@ + g(e.closest_distance_nm, 1) + " NM ("@ + g(e.estimated_db, 0) + " dB)\n"@,
{
}

/// Aircraft are counted one by one: those of two lists together are those of each.
pub proof fn counts_add_up(xs: Seq<AircraftView>, ys: Seq<AircraftView>, b: Behavior)
    ensures
        count_of(xs + ys, b) == count_of(xs, b) + count_of(ys, b),
        ys.len() == 0 ==> count_of(ys, b) == 0,
        ys.len() == 1 ==> count_of(ys, b) == (if ys[0].behavior == b {
            1nat
        } else {
            0nat
        }),
    decreases ys.len(),
{
    reveal_with_fuel(count_of, 2);
    if ys.len() == 0 {
        assert(xs + ys =~= xs);
    } else {
        counts_add_up(xs, ys.drop_last(), b);
        assert((xs + ys).drop_last() =~= xs + ys.drop_last());
        assert((xs + ys).last() == ys.last());
    }
}

/// The line on a behavior gives the number of aircraft and the name; there is none where
/// there are no such aircraft.
pub proof fn count_lines_tell_the_number(s: Seq<AircraftView>, b: Behavior)
    ensures
        count_of(s, b) > 0 ==> count_line(s, b) == "  "@ + decimal(count_of(s, b)) + " × "@
            + behavior_name(b) + "\n"@,
        count_of(s, b) == 0 ==> count_line(s, b).len() == 0,
        s.len() > 0 ==> behavior_section(s) == "BEHAVIOR BREAKDOWN:\n"@ + count_line(
            s,
            Behavior::Cruise,
        ) + count_line(s, Behavior::Approach) + count_line(s, Behavior::Holding) + count_line(
            s,
            Behavior::Hovering,
        ) + count_line(s, Behavior::Climbing) + count_line(s, Behavior::Descending) + count_line(
            s,
            Behavior::Taxiing,
        ) + count_line(s, Behavior::Enroute) + "\n"@,
        s.len() == 0 ==> behavior_section(s).len() == 0,
{
}

/// Lines stand one below the other in the order of what they are about.
pub proof fn lines_follow_the_lists(
    f: spec_fn(Formula) -> Real,
    g: spec_fn(Real, usize) -> Seq<char>,
    s: Seq<AircraftView>,
    a: AircraftView,
    t: Seq<ConflictView>,
    c: ConflictView,
    u: Seq<EventView>,
    e: EventView,
    v: Seq<String>,
    r: String,
)
    ensures
        aircraft_lines(f, s.push(a)) == aircraft_lines(f, s) + aircraft_line(f, a),
        aircraft_lines(f, Seq::empty()).len() == 0,
        conflict_lines(g, t.push(c)) == conflict_lines(g, t) + conflict_line(g, c),
        conflict_lines(g, Seq::empty()).len() == 0,
        event_lines(g, u.push(e)) == event_lines(g, u) + event_line(g, e),
        event_lines(g, Seq::empty()).len() == 0,
        recent_lines(v.push(r)) == recent_lines(v) + "  - \""@ + r@ + "\"\n"@,
        recent_lines(Seq::empty()).len() == 0,
{
    assert(s.push(a).drop_last() =~= s);
    assert(t.push(c).drop_last() =~= t);
    assert(u.push(e).drop_last() =~= u);
    assert(v.push(r).drop_last() =~= v);
}

/// The prompt tells how many aircraft there are and how they behave, the eight most notable
/// of them, the first three conflicts and events with the number of all, and the former
/// narrations, and asks for a narration. Sections about nothing are left out.
pub proof fn prompts_tell_the_most_notable(
    f: spec_fn(Formula) -> Real,
    g: spec_fn(Real, usize) -> Seq<char>,
    snap: SnapshotView,
    recent: Seq<String>,
    order: Seq<AircraftView>,
    named: Seq<AircraftView>,
    close: Seq<ConflictView>,
    loud: Seq<EventView>,
    conflict_part: Seq<char>,
    event_part: Seq<char>,
    recent_part: Seq<char>,
)
    requires
        order == sorted_by(snap.aircraft, notable_order()),
        named == order.subrange(
            0,
            if order.len() < 8 {
                order.len() as int
            } else {
                8
            },
        ),
        close == snap.conflicts.subrange(
            0,
            if snap.conflicts.len() < 3 {
                snap.conflicts.len() as int
            } else {
                3
            },
        ),
        loud == snap.audible.subrange(
            0,
            if snap.audible.len() < 3 {
                snap.audible.len() as int
            } else {
                3
            },
        ),
        snap.conflicts.len() == 0 ==> conflict_part == Seq::<char>::empty(),
        snap.conflicts.len() > 0 ==> conflict_part == "CONFLICTS: "@ + decimal(
            snap.conflicts.len(),
        ) + " pair(s) inside 3 NM / 1000 ft.\n"@ + conflict_lines(g, close) + "\n"@,
        snap.audible.len() == 0 ==> event_part == Seq::<char>::empty(),
        snap.audible.len() > 0 ==> event_part == "AUDIBLE AT REFINERY: "@ + decimal(
            snap.audible.len(),
        ) + " aircraft within 4 min.\n"@ + event_lines(g, loud) + "\n"@,
        recent.len() == 0 ==> recent_part == Seq::<char>::empty(),
        recent.len() > 0 ==> recent_part == "RECENT NARRATIONS (do NOT repeat these):\n"@
            + recent_lines(recent) + "\n"@,
    ensures
        prompt(f, g, snap, recent) == "AIRSPACE STATE — "@ + decimal(snap.aircraft.len())
            + " aircraft tracked.\n\n"@ + behavior_section(snap.aircraft) + (
        "AIRCRAFT (notable):\n"@ + aircraft_lines(f, named) + "\n"@) + conflict_part + event_part
            + recent_part
            + "Write 2-3 short sentences narrating the most notable activity right now."@,
{
    assert(at_most(order, 8) =~= named);
    assert(at_most(snap.conflicts, 3) =~= close);
    assert(at_most(snap.audible, 3) =~= loud);
}

/// Hovering and holding aircraft are the most notable, then those on approach, those that
/// climb or descend, those en route, those that cruise, and those that taxi.
pub proof fn notable_aircraft_come_first(x: AircraftView, y: AircraftView)
    ensures
        x.behavior is Hovering || x.behavior is Holding ==> notable_order()(x, y),
        y.behavior is Taxiing ==> notable_order()(x, y),
        (x.behavior is Hovering || x.behavior is Holding) && !(y.behavior is Hovering || y.behavior
            is Holding) ==> !notable_order()(y, x),
        x.behavior is Approach && (y.behavior is Climbing || y.behavior is Descending) ==> !(
        notable_order()(y, x)),
        (x.behavior is Climbing || x.behavior is Descending) && y.behavior is Enroute ==> !(
        notable_order()(y, x)),
        (x.behavior is Climbing || x.behavior is Descending) && (y.behavior is Climbing
            || y.behavior is Descending) ==> notable_order()(x, y),
        x.behavior is Enroute && y.behavior is Cruise ==> !notable_order()(y, x),
        x.behavior is Cruise && y.behavior is Taxiing ==> !notable_order()(y, x),
        x.behavior == y.behavior ==> notable_order()(x, y),
        notable_order()(x, y) || notable_order()(y, x),
{
}

/// Of the texts up to the new one the last five are remembered.
pub proof fn the_last_five_narrations_are_remembered(texts: Seq<Seq<char>>, latest: Seq<char>)
    ensures
        texts.len() < 5 ==> remembered(texts.push(latest)) == texts.push(latest),
        texts.len() >= 5 ==> remembered(texts.push(latest)) == texts.push(latest).subrange(
            texts.len() - 4,
            texts.len() + 1int,
        ),
{
}

/// The remembered texts are those of the list, in its order.
pub proof fn remembered_texts_are_those_of_the_list(recent: VecDeque<String>)
    ensures
        texts_of(recent).len() == recent@.len(),
        forall|i: int| 0 <= i < recent@.len() ==> #[trigger] texts_of(recent)[i] == recent@[i]@,
{
}

} // verus!
