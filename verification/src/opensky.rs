//! The OpenSky Network feed.

use crate::json::{json_contents, read_values, Cell, CellView};
use crate::measure::Real;
use crate::text::{first_chars, opt_text, trim, trimmed};
use crate::types::{contents, RawAircraft, RawView, TrackPoint};
use serde_json::Value;
use vstd::prelude::*;
use vstd::string::*;

verus! {

/// An answer of the feed: seconds since the epoch, and one list of positional values for
/// each aircraft.
#[derive(Debug)]
pub struct OpenSkyResponse {
    pub time: i64,
    pub states: Option<Vec<Vec<Value>>>,
}

/// The text at a place, where there is one.
pub open spec fn text_at(s: Seq<CellView>, i: int) -> Option<Seq<char>> {
    if i < s.len() {
        s[i].text()
    } else {
        None
    }
}

/// The measurement at a place, where there is one.
pub open spec fn measured_at(s: Seq<CellView>, i: int) -> Option<Real> {
    if i < s.len() {
        s[i].measured()
    } else {
        None
    }
}

/// The truth value at a place, where there is one.
pub open spec fn truth_at(s: Seq<CellView>, i: int) -> Option<bool> {
    if i < s.len() {
        s[i].truth()
    } else {
        None
    }
}

/// A callsign without the white space around it; none where nothing is left.
pub open spec fn clean_callsign(c: Option<Seq<char>>) -> Option<Seq<char>> {
    match c {
        Some(c) => if trimmed(c).len() == 0 {
            None
        } else {
            Some(trimmed(c))
        },
        None => None,
    }
}

/// The aircraft that a list of positional values describes. The address and the position
/// must be there; a country that is missing is empty.
pub open spec fn state_content(s: Seq<CellView>) -> Option<RawView> {
    match (text_at(s, 0), measured_at(s, 5), measured_at(s, 6)) {
        (Some(icao24), Some(longitude), Some(latitude)) => Some(
            RawView {
                icao24: trimmed(icao24),
                callsign: clean_callsign(text_at(s, 1)),
                origin_country: match text_at(s, 2) {
                    Some(country) => country,
                    None => Seq::empty(),
                },
                longitude,
                latitude,
                altitude_m: measured_at(s, 7),
                velocity_ms: measured_at(s, 9),
                heading: measured_at(s, 10),
                on_ground: truth_at(s, 8) == Some(true),
            },
        ),
        _ => None,
    }
}

/// The aircraft that the lists describe; lists that describe none are passed over.
pub open spec fn states_content(rows: Seq<Seq<CellView>>) -> Seq<RawView>
    decreases rows.len(),
{
    if rows.len() == 0 {
        Seq::empty()
    } else {
        let before = states_content(rows.drop_last());
        match state_content(rows.last()) {
            Some(raw) => before.push(raw),
            None => before,
        }
    }
}

/// What the lists of an answer hold; none where the answer has no lists.
pub open spec fn rows_content(states: Option<Vec<Vec<Value>>>) -> Seq<Seq<CellView>> {
    match states {
        Some(rows) => rows@.map_values(|row: Vec<Value>| json_contents(row@)),
        None => Seq::empty(),
    }
}

/// The content of an optional aircraft.
pub open spec fn opt_raw(r: Option<RawAircraft>) -> Option<RawView> {
    match r {
        Some(r) => Some(r@),
        None => None,
    }
}

/// A callsign without the white space around it; none where nothing is left.
pub fn cleaned_callsign(c: Option<&String>) -> (r: Option<String>)
    ensures
        opt_text(r) == clean_callsign(
            match c {
                Some(c) => Some(c@),
                None => None,
            },
        ),
{
    match c {
        Some(c) => {
            let t = trim(c.as_str());
            if t.as_str().is_empty() {
                None
            } else {
                Some(t)
            }
        },
        None => None,
    }
}

fn cell_text(s: &[Cell], i: usize) -> (r: Option<&String>)
    ensures
        match r {
            Some(t) => text_at(contents(s@), i as int) == Some(t@),
            None => text_at(contents(s@), i as int) is None,
        },
{
    if i < s.len() {
        s[i].as_text()
    } else {
        None
    }
}

fn cell_measured(s: &[Cell], i: usize) -> (r: Option<Real>)
    ensures
        r == measured_at(contents(s@), i as int),
{
    if i < s.len() {
        s[i].as_measured()
    } else {
        None
    }
}

fn cell_truth(s: &[Cell], i: usize) -> (r: Option<bool>)
    ensures
        r == truth_at(contents(s@), i as int),
{
    if i < s.len() {
        s[i].as_truth()
    } else {
        None
    }
}

/// The aircraft that a list of positional cells describes.
pub fn state_from_cells(s: &[Cell]) -> (r: Option<RawAircraft>)
    ensures
        opt_raw(r) == state_content(contents(s@)),
{
    match (cell_text(s, 0), cell_measured(s, 5), cell_measured(s, 6)) {
        (Some(icao24), Some(longitude), Some(latitude)) => Some(
            RawAircraft {
                icao24: trim(icao24.as_str()),
                callsign: cleaned_callsign(cell_text(s, 1)),
                origin_country: match cell_text(s, 2) {
                    Some(country) => country.clone(),
                    None => String::new(),
                },
                longitude,
                latitude,
                altitude_m: cell_measured(s, 7),
                velocity_ms: cell_measured(s, 9),
                heading: cell_measured(s, 10),
                on_ground: match cell_truth(s, 8) {
                    Some(b) => b,
                    None => false,
                },
            },
        ),
        _ => None,
    }
}

/// The aircraft that a list of positional values describes. `None` where the address or
/// the position is missing.
pub fn state_to_partial(s: &[Value]) -> (r: Option<RawAircraft>)
    ensures
        opt_raw(r) == state_content(json_contents(s@)),
        r is None <==> {
            let cells = json_contents(s@);
            ||| text_at(cells, 0) is None
            ||| measured_at(cells, 5) is None
            ||| measured_at(cells, 6) is None
        },
{
    let cells = read_values(s);
    state_from_cells(cells.as_slice())
}

/// The aircraft of an answer.
pub fn aircraft_of(response: &OpenSkyResponse) -> (r: Vec<RawAircraft>)
    ensures
        contents(r@) == states_content(rows_content(response.states)),
{
    let mut out: Vec<RawAircraft> = Vec::new();
    assert(contents(out@) =~= Seq::<RawView>::empty());
    match &response.states {
        Some(rows) => {
            let n: usize = rows.len();
            let ghost all = rows_content(response.states);
            let mut i: usize = 0;
            assert(all.take(0) =~= Seq::<Seq<CellView>>::empty());
            while i < n
                invariant
                    n == rows@.len(),
                    i <= n,
                    all == rows@.map_values(|row: Vec<Value>| json_contents(row@)),
                    contents(out@) == states_content(all.take(i as int)),
                decreases n - i,
            {
                let ghost before = contents(out@);
                proof {
                    assert(all.take(i + 1).drop_last() =~= all.take(i as int));
                    assert(all.take(i + 1).last() == json_contents(rows@[i as int]@));
                }
                match state_to_partial(rows[i].as_slice()) {
                    Some(raw) => {
                        out.push(raw);
                        assert(contents(out@) =~= before.push(raw@));
                    },
                    None => {},
                }
                i = i + 1;
            }
            assert(all.take(n as int) =~= all);
        },
        None => {},
    }
    out
}

/// A list of which an address and a position can be read is decoded, whatever the lists
/// beside it look like, and nothing else is.
pub proof fn readable_states_are_decoded(rows: Seq<Seq<CellView>>, raw: RawView)
    ensures
        states_content(rows).contains(raw) <==> exists|i: int|
            0 <= i < rows.len() && state_content(#[trigger] rows[i]) == Some(raw),
    decreases rows.len(),
{
    if rows.len() > 0 {
        let head = rows.drop_last();
        let last = rows[rows.len() - 1];
        readable_states_are_decoded(head, raw);
        assert forall|i: int| 0 <= i < head.len() implies #[trigger] rows[i] == head[i] by {}
        if state_content(last) is Some {
            crate::order::lemma_push_members(states_content(head), state_content(last)->0, raw);
        }
        if states_content(head).contains(raw) {
            let i = choose|i: int|
                0 <= i < head.len() && state_content(#[trigger] head[i]) == Some(raw);
            assert(rows[i] == head[i]);
        }
    }
}

/// The observation for the track that a report makes at `time_ms`.
pub open spec fn track_point(a: RawView, time_ms: u64) -> TrackPoint {
    TrackPoint {
        time_ms,
        lng: a.longitude,
        lat: a.latitude,
        altitude_m: a.altitude_m,
        velocity_ms: a.velocity_ms,
        heading: a.heading,
        on_ground: a.on_ground,
    }
}

/// The observation for the track that a report makes at `time_ms`.
pub fn make_track_point(a: &RawAircraft, time_ms: u64) -> (r: TrackPoint)
    ensures
        r == track_point(a@, time_ms),
{
    TrackPoint {
        time_ms,
        lng: a.longitude,
        lat: a.latitude,
        altitude_m: a.altitude_m,
        velocity_ms: a.velocity_ms,
        heading: a.heading,
        on_ground: a.on_ground,
    }
}

/// A status of the class that stands for success.
pub open spec fn is_success(status: u16) -> bool {
    200 <= status < 300
}

/// The start of the body that is quoted in an error.
pub open spec fn snippet(body: Seq<char>) -> Seq<char> {
    if body.len() <= 80 {
        body
    } else {
        body.take(80)
    }
}

/// The error that an answer without success is turned into. `status_line` is the status
/// with its reason.
pub open spec fn status_message(status: u16, status_line: Seq<char>, body: Seq<char>) -> Seq<char> {
    if status == 429 {
        "opensky http 429 rate limited: "@ + snippet(body)
    } else {
        "opensky http "@ + status_line + ": "@ + snippet(body)
    }
}

/// The error that an answer is turned into, none where it is a success.
pub fn status_error(status: u16, status_line: &str, body: &str) -> (r: Option<String>)
    ensures
        opt_text(r) == (if is_success(status) {
            None
        } else {
            Some(status_message(status, status_line@, body@))
        }),
{
    if status >= 200 && status < 300 {
        return None;
    }
    let quoted = first_chars(body, 80);
    let mut s: String;
    if status == 429 {
        s = "opensky http 429 rate limited: ".to_owned();
    } else {
        s = "opensky http ".to_owned();
        s.append(status_line);
        s.append(": ");
    }
    s.append(quoted.as_str());
    Some(s)
}

/// What is read at each place of a decoded list: the address at the first, then the
/// callsign and the country; the longitude at the sixth, then the latitude, the altitude,
/// whether it is on the ground, the speed and the heading. Addresses and callsigns lose the
/// white space around them, a blank callsign is none, and an aircraft of which it is not
/// known flies.
pub proof fn states_are_read_by_place(s: Seq<CellView>, raw: RawView)
    requires
        state_content(s) == Some(raw),
    ensures
        s.len() >= 7,
        s[0] matches CellView::Text(t) && raw.icao24 == trimmed(t),
        s[1] matches CellView::Text(t) ==> raw.callsign == (if trimmed(t).len() > 0 {
            Some(trimmed(t))
        } else {
            None
        }),
        !(s[1] is Text) ==> raw.callsign is None,
        s[2] matches CellView::Text(t) ==> raw.origin_country == t,
        !(s[2] is Text) ==> raw.origin_country.len() == 0,
        s[5] matches CellView::Number { whole, measured, text } && measured == Some(raw.longitude),
        s[6] matches CellView::Number { whole, measured, text } && measured == Some(raw.latitude),
        s.len() > 7 ==> (s[7] matches CellView::Number { whole, measured, text }
            ==> raw.altitude_m == measured),
        !(s.len() > 7 && s[7] is Number) ==> raw.altitude_m is None,
        s.len() > 8 ==> (s[8] matches CellView::Bool(b) ==> raw.on_ground == b),
        !(s.len() > 8 && s[8] is Bool) ==> !raw.on_ground,
        s.len() > 9 ==> (s[9] matches CellView::Number { whole, measured, text }
            ==> raw.velocity_ms == measured),
        !(s.len() > 9 && s[9] is Number) ==> raw.velocity_ms is None,
        s.len() > 10 ==> (s[10] matches CellView::Number { whole, measured, text } ==> raw.heading
            == measured),
        !(s.len() > 10 && s[10] is Number) ==> raw.heading is None,
{
}

/// A list is decoded exactly where its first value is a text and its sixth and seventh are
/// numbers that can be measured.
pub proof fn address_and_position_are_required(s: Seq<CellView>)
    ensures
        state_content(s) is Some <==> {
            &&& s.len() >= 7
            &&& s[0] is Text
            &&& (s[5] matches CellView::Number { whole, measured, text } && measured is Some)
            &&& (s[6] matches CellView::Number { whole, measured, text } && measured is Some)
        },
{
}

/// Lists are decoded one after the other: those of two answers together give the aircraft of
/// the first, then those of the second, and a list gives at most one.
pub proof fn states_are_decoded_in_order(xs: Seq<Seq<CellView>>, ys: Seq<Seq<CellView>>)
    ensures
        states_content(xs + ys) == states_content(xs) + states_content(ys),
        ys.len() == 1 ==> states_content(ys) == (match state_content(ys[0]) {
            Some(raw) => seq![raw],
            None => Seq::empty(),
        }),
        ys.len() == 0 ==> states_content(ys).len() == 0,
    decreases ys.len(),
{
    reveal_with_fuel(states_content, 2);
    let before = states_content(xs);
    if ys.len() == 0 {
        assert(xs + ys =~= xs);
        assert(before + states_content(ys) =~= before);
    } else {
        let head = ys.drop_last();
        states_are_decoded_in_order(xs, head);
        assert((xs + ys).drop_last() =~= xs + head);
        assert((xs + ys).last() == ys.last());
        if state_content(ys.last()) is Some {
            let raw = state_content(ys.last())->0;
            assert((before + states_content(head)).push(raw) =~= before + states_content(
                head,
            ).push(raw));
        }
        if ys.len() == 1 {
            assert(head =~= Seq::<Seq<CellView>>::empty());
            if state_content(ys[0]) is Some {
                assert(states_content(ys) =~= seq![state_content(ys[0])->0]);
            }
        }
    }
}

/// The lists of an answer are its own, value by value; an answer without lists has none.
pub proof fn rows_are_those_of_the_answer(states: Option<Vec<Vec<Value>>>, i: int, j: int)
    ensures
        states is None ==> rows_content(states).len() == 0,
        states matches Some(rows) ==> rows_content(states).len() == rows@.len(),
        states matches Some(rows) ==> (0 <= i < rows@.len() ==> rows_content(states)[i].len()
            == rows@[i]@.len()),
        states matches Some(rows) ==> (0 <= i < rows@.len() && 0 <= j < rows@[i]@.len()
            ==> rows_content(states)[i][j] == crate::json::json_content(rows@[i]@[j])),
{
}

/// An observation has the moment, and place, altitude, speed, heading and contact with the
/// ground of the report.
pub proof fn observations_repeat_the_report(a: RawView, time_ms: u64)
    ensures
        track_point(a, time_ms).time_ms == time_ms,
        track_point(a, time_ms).lng == a.longitude,
        track_point(a, time_ms).lat == a.latitude,
        track_point(a, time_ms).altitude_m == a.altitude_m,
        track_point(a, time_ms).velocity_ms == a.velocity_ms,
        track_point(a, time_ms).heading == a.heading,
        track_point(a, time_ms).on_ground == a.on_ground,
{
}

/// The error of an answer ends with the start of its body, at most eighty characters of it,
/// behind the status or, for too many requests, behind the word for that.
pub proof fn errors_quote_the_body(status: u16, line: Seq<char>, body: Seq<char>, quoted: Seq<char>)
    requires
        quoted == body.subrange(
            0,
            if body.len() < 80 {
                body.len() as int
            } else {
                80
            },
        ),
    ensures
        status == 429 ==> status_message(status, line, body) == "opensky http 429 rate limited: "@
            + quoted,
        status != 429 ==> status_message(status, line, body) == "opensky http "@ + line + ": "@
            + quoted,
        is_success(status) <==> 200 <= status && status <= 299,
{
    assert(snippet(body) =~= quoted);
}

} // verus!
