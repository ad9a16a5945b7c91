//! The adsb.lol feed, the primary source of positions.

use crate::formula::{computes, is_unit, Formula};
use crate::json::{opt_cell, opt_content, read_optional, Cell, CellView};
use crate::measure::Real;
use crate::opensky::{clean_callsign, cleaned_callsign, is_success, opt_raw};
use crate::text::{
    ascii_lowered, begins_with, lowered, opt_text, to_lowercase, trim, trimmed,
};
use crate::types::{contents, RawAircraft, RawView};
use serde_json::Value;
use vstd::prelude::*;
use vstd::string::*;
use vstd::utf8::is_ascii_chars;

verus! {

/// Age in seconds beyond which a position is stale.
pub const STALE_AFTER_S: u64 = 60;

/// An answer of the feed.
#[derive(Debug)]
pub struct AdsbLolResponse {
    pub ac: Option<Vec<AircraftRaw>>,
    /// Server time in milliseconds.
    pub now: Option<i64>,
}

/// An aircraft as the feed reports it.
#[derive(Debug)]
pub struct AircraftRaw {
    /// Address of 24 bits in hexadecimal digits.
    pub hex: String,
    /// Callsign, filled up with blanks.
    pub flight: Option<String>,
    /// Registration.
    pub r: Option<String>,
    /// Type of the aircraft.
    pub t: Option<String>,
    /// Barometric altitude in feet, or the text "ground".
    pub alt_baro: Option<Value>,
    /// Ground speed in knots.
    pub gs: Option<Real>,
    /// True track in degrees.
    pub track: Option<Real>,
    pub lat: Option<Real>,
    pub lon: Option<Real>,
    /// Wake category.
    pub category: Option<String>,
    /// Seconds since the position was received.
    pub seen_pos: Option<Real>,
}

/// What is read of an `AircraftRaw`.
pub struct ReportView {
    pub hex: Seq<char>,
    pub flight: Option<Seq<char>>,
    pub registration: Option<Seq<char>>,
    pub alt_baro: Option<CellView>,
    pub gs: Option<Real>,
    pub track: Option<Real>,
    pub lat: Option<Real>,
    pub lon: Option<Real>,
    pub seen_pos: Option<Real>,
}

impl View for AircraftRaw {
    type V = ReportView;

    open spec fn view(&self) -> ReportView {
        ReportView {
            hex: self.hex@,
            flight: opt_text(self.flight),
            registration: opt_text(self.r),
            alt_baro: opt_content(self.alt_baro),
            gs: self.gs,
            track: self.track,
            lat: self.lat,
            lon: self.lon,
            seen_pos: self.seen_pos,
        }
    }
}

/// The country that a registration belongs to, as far as its beginning tells.
pub open spec fn country_of(registration: Option<Seq<char>>) -> Seq<char> {
    match registration {
        Some(r) => if "N"@.is_prefix_of(r) {
            "United States"@
        } else if "C-"@.is_prefix_of(r) {
            "Canada"@
        } else if "XA"@.is_prefix_of(r) || "XB"@.is_prefix_of(r) || "XC"@.is_prefix_of(r) {
            "Mexico"@
        } else if "G-"@.is_prefix_of(r) {
            "United Kingdom"@
        } else {
            Seq::empty()
        },
        None => Seq::empty(),
    }
}

/// Where a barometric altitude is the word for being on the ground.
pub open spec fn says_ground(alt_baro: Option<CellView>) -> bool {
    match alt_baro {
        Some(c) => c.text() == Some("ground"@),
        None => false,
    }
}

/// A barometric altitude in metres, where it is a number.
pub open spec fn altitude_of(f: spec_fn(Formula) -> Real, alt_baro: Option<CellView>) -> Option<
    Real,
> {
    match alt_baro {
        Some(c) => match c.measured() {
            Some(feet) => Some(f(Formula::FeetToMetres { feet })),
            None => None,
        },
        None => None,
    }
}

/// The aircraft that a report describes. The position must be there.
pub open spec fn report_content(f: spec_fn(Formula) -> Real, a: ReportView) -> Option<RawView> {
    match (a.lat, a.lon) {
        (Some(latitude), Some(longitude)) => Some(
            RawView {
                icao24: lowered(trimmed(a.hex)),
                callsign: clean_callsign(a.flight),
                origin_country: country_of(a.registration),
                longitude,
                latitude,
                altitude_m: altitude_of(f, a.alt_baro),
                velocity_ms: match a.gs {
                    Some(knots) => Some(f(Formula::KnotsToMetresPerSecond { knots })),
                    None => None,
                },
                heading: a.track,
                on_ground: says_ground(a.alt_baro),
            },
        ),
        _ => None,
    }
}

/// The position is not stale. One of unknown age is taken to be fresh.
pub open spec fn is_fresh(a: ReportView) -> bool {
    match a.seen_pos {
        Some(age) => !age.is_nan() && !age.above(STALE_AFTER_S as int),
        None => true,
    }
}

/// The aircraft that the fresh reports describe.
pub open spec fn reports_content(f: spec_fn(Formula) -> Real, reports: Seq<ReportView>) -> Seq<
    RawView,
>
    decreases reports.len(),
{
    if reports.len() == 0 {
        Seq::empty()
    } else {
        let before = reports_content(f, reports.drop_last());
        match report_content(f, reports.last()) {
            Some(raw) => if is_fresh(reports.last()) {
                before.push(raw)
            } else {
                before
            },
            None => before,
        }
    }
}

/// The reports of an answer; none where it has no list.
pub open spec fn reports_of(ac: Option<Vec<AircraftRaw>>) -> Seq<ReportView> {
    match ac {
        Some(reports) => contents(reports@),
        None => Seq::empty(),
    }
}

/// Whole seconds of a server time in milliseconds; zero where there is none.
pub open spec fn server_seconds(now: Option<i64>) -> int {
    match now {
        Some(ms) => if ms >= 0 {
            ms as int / 1000
        } else {
            -((-ms) / 1000)
        },
        None => 0,
    }
}

/// The country that a registration belongs to, as far as its beginning tells.
pub fn registration_country(registration: &Option<String>) -> (r: String)
    ensures
        r@ == country_of(opt_text(*registration)),
{
    match registration {
        Some(s) => {
            let s = s.as_str();
            if begins_with(s, "N") {
                "United States".to_owned()
            } else if begins_with(s, "C-") {
                "Canada".to_owned()
            } else if begins_with(s, "XA") || begins_with(s, "XB") || begins_with(s, "XC") {
                "Mexico".to_owned()
            } else if begins_with(s, "G-") {
                "United Kingdom".to_owned()
            } else {
                String::new()
            }
        },
        None => String::new(),
    }
}

/// The aircraft that a report describes, with the barometric altitude that was read of
/// it.
pub fn convert_read<U: Fn(Formula) -> Real>(
    a: &AircraftRaw,
    alt_baro: &Option<Cell>,
    unit: &U,
) -> (r: Option<RawAircraft>)
    requires
        is_unit(*unit),
    ensures
        forall|f: spec_fn(Formula) -> Real| #[trigger]
            computes(*unit, f) ==> opt_raw(r) == report_content(
                f,
                (ReportView { alt_baro: opt_cell(*alt_baro), ..a@ }),
            ),
        r is Some && is_ascii_chars(trimmed(a@.hex)) ==> r->0@.icao24 == ascii_lowered(
            trimmed(a@.hex),
        ),
{
    match (a.lat, a.lon) {
        (Some(latitude), Some(longitude)) => {
            let mut altitude_m: Option<Real> = None;
            let mut on_ground = false;
            match alt_baro {
                Some(c) => {
                    match c.as_text() {
                        Some(t) => {
                            on_ground = *t == "ground".to_owned();
                        },
                        None => {},
                    }
                    match c.as_measured() {
                        Some(feet) => {
                            altitude_m = Some(unit(Formula::FeetToMetres { feet }));
                        },
                        None => {},
                    }
                },
                None => {},
            }
            Some(
                RawAircraft {
                    icao24: to_lowercase(trim(a.hex.as_str()).as_str()),
                    callsign: cleaned_callsign(a.flight.as_ref()),
                    origin_country: registration_country(&a.r),
                    longitude,
                    latitude,
                    altitude_m,
                    velocity_ms: match a.gs {
                        Some(knots) => Some(unit(Formula::KnotsToMetresPerSecond { knots })),
                        None => None,
                    },
                    heading: a.track,
                    on_ground,
                },
            )
        },
        _ => None,
    }
}

/// The aircraft that a report describes.
pub fn convert<U: Fn(Formula) -> Real>(a: &AircraftRaw, unit: &U) -> (r: Option<RawAircraft>)
    requires
        is_unit(*unit),
    ensures
        forall|f: spec_fn(Formula) -> Real| #[trigger]
            computes(*unit, f) ==> opt_raw(r) == report_content(f, a@),
        r is Some && is_ascii_chars(trimmed(a@.hex)) ==> r->0@.icao24 == ascii_lowered(
            trimmed(a@.hex),
        ),
{
    let alt_baro = read_optional(&a.alt_baro);
    convert_read(a, &alt_baro, unit)
}

/// The server time of an answer in seconds, and the aircraft of its fresh reports.
pub fn batch_of<U: Fn(Formula) -> Real>(response: &AdsbLolResponse, unit: &U) -> (r: (
    i64,
    Vec<RawAircraft>,
))
    requires
        is_unit(*unit),
    ensures
        r.0 == server_seconds(response.now),
        forall|f: spec_fn(Formula) -> Real| #[trigger]
            computes(*unit, f) ==> contents(r.1@) == reports_content(f, reports_of(response.ac)),
{
    let seconds: i64 = match response.now {
        Some(ms) => ms / 1000,
        None => 0,
    };
    let mut out: Vec<RawAircraft> = Vec::new();
    assert(contents(out@) =~= Seq::<RawView>::empty());
    match &response.ac {
        Some(reports) => {
            let n: usize = reports.len();
            let ghost all = contents(reports@);
            let mut i: usize = 0;
            assert(all.take(0) =~= Seq::<ReportView>::empty());
            while i < n
                invariant
                    is_unit(*unit),
                    n == reports@.len(),
                    i <= n,
                    all == contents(reports@),
                    forall|f: spec_fn(Formula) -> Real| #[trigger]
                        computes(*unit, f) ==> contents(out@) == reports_content(
                            f,
                            all.take(i as int),
                        ),
                decreases n - i,
            {
                let a = &reports[i];
                let ghost before = contents(out@);
                proof {
                    assert(all.take(i + 1).drop_last() =~= all.take(i as int));
                    assert(all.take(i + 1).last() == a@);
                }
                let fresh = match a.seen_pos {
                    Some(age) => !age.not_a_number() && !age.is_above(STALE_AFTER_S),
                    None => true,
                };
                if fresh {
                    match convert(a, unit) {
                        Some(raw) => {
                            out.push(raw);
                            assert(contents(out@) =~= before.push(raw@));
                        },
                        None => {},
                    }
                }
                i = i + 1;
            }
            assert(all.take(n as int) =~= all);
        },
        None => {},
    }
    (seconds, out)
}

/// The error that an answer is turned into, none where it is a success. `status_line` is
/// the status with its reason.
pub fn status_error(status: u16, status_line: &str) -> (r: Option<String>)
    ensures
        opt_text(r) == (if is_success(status) {
            None
        } else {
            Some("adsb.lol http "@ + status_line@)
        }),
{
    if status >= 200 && status < 300 {
        None
    } else {
        let mut s = "adsb.lol http ".to_owned();
        s.append(status_line);
        Some(s)
    }
}

/// Every aircraft of a batch comes from a report whose position is not stale.
pub proof fn stale_reports_are_dropped(
    f: spec_fn(Formula) -> Real,
    reports: Seq<ReportView>,
    raw: RawView,
)
    requires
        reports_content(f, reports).contains(raw),
    ensures
        exists|i: int|
            0 <= i < reports.len() && is_fresh(#[trigger] reports[i]) && report_content(
                f,
                reports[i],
            ) == Some(raw),
    decreases reports.len(),
{
    if reports.len() > 0 {
        let head = reports.drop_last();
        let last = reports[reports.len() - 1];
        if reports_content(f, head).contains(raw) {
            stale_reports_are_dropped(f, head, raw);
            let i = choose|i: int|
                0 <= i < head.len() && is_fresh(#[trigger] head[i]) && report_content(f, head[i])
                    == Some(raw);
            assert(reports[i] == head[i]);
        } else {
            let added = report_content(f, last)->0;
            crate::order::lemma_push_members(reports_content(f, head), added, raw);
        }
    }
}

/// Every report that has a position which is not stale is in the batch.
pub proof fn fresh_reports_are_kept(f: spec_fn(Formula) -> Real, reports: Seq<ReportView>, i: int)
    requires
        0 <= i < reports.len(),
        is_fresh(reports[i]),
        reports[i].lat is Some,
        reports[i].lon is Some,
    ensures
        report_content(f, reports[i]) is Some,
        reports_content(f, reports).contains(report_content(f, reports[i])->0),
    decreases reports.len(),
{
    let head = reports.drop_last();
    let raw = report_content(f, reports[i])->0;
    let before = reports_content(f, head);
    if i < head.len() {
        assert(reports[i] == head[i]);
        fresh_reports_are_kept(f, head, i);
        if report_content(f, reports.last()) is Some {
            crate::order::lemma_push_members(before, report_content(f, reports.last())->0, raw);
        }
    } else {
        crate::order::lemma_push_members(before, raw, raw);
    }
}

/// What a report says: the address in lower case without white space around it, the
/// callsign likewise unless it is blank, the place, the true track, the speed in metres per
/// second, and the altitude in metres where it is a number. Only the word for it puts the
/// aircraft on the ground.
pub proof fn reports_are_read_by_field(f: spec_fn(Formula) -> Real, a: ReportView, raw: RawView)
    requires
        report_content(f, a) == Some(raw),
    ensures
        raw.icao24 == lowered(trimmed(a.hex)),
        a.flight matches Some(t) ==> raw.callsign == (if trimmed(t).len() > 0 {
            Some(trimmed(t))
        } else {
            None
        }),
        a.flight is None ==> raw.callsign is None,
        a.lat == Some(raw.latitude),
        a.lon == Some(raw.longitude),
        raw.heading == a.track,
        a.gs matches Some(knots) ==> raw.velocity_ms == Some(
            f(Formula::KnotsToMetresPerSecond { knots }),
        ),
        a.gs is None ==> raw.velocity_ms is None,
        a.alt_baro == Some(CellView::Text("ground"@)) <==> raw.on_ground,
        a.alt_baro matches Some(CellView::Number { whole, measured: Some(feet), text })
            ==> raw.altitude_m == Some(f(Formula::FeetToMetres { feet })),
        !(a.alt_baro matches Some(CellView::Number { whole, measured: Some(feet), text }))
            ==> raw.altitude_m is None,
        raw.origin_country == country_of(a.registration),
{
}

/// A report describes an aircraft exactly where both its coordinates are there.
pub proof fn both_coordinates_are_required(f: spec_fn(Formula) -> Real, a: ReportView)
    ensures
        report_content(f, a) is Some <==> a.lat is Some && a.lon is Some,
{
}

/// The country by the first characters of the registration: N for the United States, C- for
/// Canada, XA, XB and XC for Mexico, G- for the United Kingdom. Of any other, and of none,
/// the country is not known.
pub proof fn registrations_tell_the_country(r: Seq<char>)
    ensures
        r.len() > 0 && r[0] == 'N' ==> country_of(Some(r)) == "United States"@,
        r.len() > 1 && r[0] == 'C' && r[1] == '-' ==> country_of(Some(r)) == "Canada"@,
        r.len() > 1 && r[0] == 'X' && (r[1] == 'A' || r[1] == 'B' || r[1] == 'C') ==> country_of(
            Some(r),
        ) == "Mexico"@,
        r.len() > 1 && r[0] == 'G' && r[1] == '-' ==> country_of(Some(r)) == "United Kingdom"@,
        !(r.len() > 0 && r[0] == 'N') && !(r.len() > 1 && r[1] == '-' && (r[0] == 'C' || r[0]
            == 'G')) && !(r.len() > 1 && r[0] == 'X' && (r[1] == 'A' || r[1] == 'B' || r[1]
            == 'C')) ==> country_of(Some(r)).len() == 0,
        country_of(None).len() == 0,
{
    reveal_strlit("N");
    reveal_strlit("C-");
    reveal_strlit("XA");
    reveal_strlit("XB");
    reveal_strlit("XC");
    reveal_strlit("G-");
    assert("N"@.is_prefix_of(r) <==> r.len() > 0 && r[0] == 'N') by {
        if r.len() > 0 && r[0] == 'N' {
            assert("N"@ =~= r.subrange(0, 1));
        }
        if "N"@.is_prefix_of(r) {
            assert(r.subrange(0, 1)[0] == "N"@[0]);
        }
    }
    lemma_two_letters("C-"@, r);
    lemma_two_letters("XA"@, r);
    lemma_two_letters("XB"@, r);
    lemma_two_letters("XC"@, r);
    lemma_two_letters("G-"@, r);
}

proof fn lemma_two_letters(p: Seq<char>, r: Seq<char>)
    requires
        p.len() == 2,
    ensures
        p.is_prefix_of(r) <==> r.len() > 1 && r[0] == p[0] && r[1] == p[1],
{
    if r.len() > 1 && r[0] == p[0] && r[1] == p[1] {
        assert(p =~= r.subrange(0, 2));
    }
    if p.is_prefix_of(r) {
        assert(r.subrange(0, 2)[0] == p[0] && r.subrange(0, 2)[1] == p[1]);
    }
}

/// A position is fresh up to an age of sixty seconds, and where its age is not known.
pub proof fn positions_are_fresh_for_a_minute(a: ReportView, age: Real)
    ensures
        a.seen_pos is None ==> is_fresh(a),
        a.seen_pos == Some(age) ==> (is_fresh(a) <==> age.below(60) || age.equals(60)),
{
    crate::measure::whole_numbers_are_spread(age, 60, 60);
}

/// Reports are read one after the other: those of two answers together give the aircraft of
/// the first, then those of the second, and a report gives one exactly where it is fresh and
/// describes one.
pub proof fn reports_are_read_in_order(
    f: spec_fn(Formula) -> Real,
    xs: Seq<ReportView>,
    ys: Seq<ReportView>,
)
    ensures
        reports_content(f, xs + ys) == reports_content(f, xs) + reports_content(f, ys),
        ys.len() == 1 && is_fresh(ys[0]) && report_content(f, ys[0]) is Some ==> reports_content(
            f,
            ys,
        ) == seq![report_content(f, ys[0])->0],
        ys.len() == 1 && !(is_fresh(ys[0]) && report_content(f, ys[0]) is Some)
            ==> reports_content(f, ys).len() == 0,
        ys.len() == 0 ==> reports_content(f, ys).len() == 0,
    decreases ys.len(),
{
    reveal_with_fuel(reports_content, 2);
    let before = reports_content(f, xs);
    if ys.len() == 0 {
        assert(xs + ys =~= xs);
        assert(before + reports_content(f, ys) =~= before);
    } else {
        let head = ys.drop_last();
        reports_are_read_in_order(f, xs, head);
        assert((xs + ys).drop_last() =~= xs + head);
        assert((xs + ys).last() == ys.last());
        if report_content(f, ys.last()) is Some {
            let raw = report_content(f, ys.last())->0;
            assert((before + reports_content(f, head)).push(raw) =~= before + reports_content(
                f,
                head,
            ).push(raw));
        }
        if ys.len() == 1 {
            assert(head =~= Seq::<ReportView>::empty());
            if report_content(f, ys[0]) is Some && is_fresh(ys[0]) {
                assert(reports_content(f, ys) =~= seq![report_content(f, ys[0])->0]);
            }
        }
    }
}

/// The reports of an answer are its own, one by one, and say what its fields say.
pub proof fn reports_are_those_of_the_answer(ac: Option<Vec<AircraftRaw>>, i: int)
    ensures
        ac is None ==> reports_of(ac).len() == 0,
        ac matches Some(list) ==> reports_of(ac).len() == list@.len(),
        ac matches Some(list) ==> (0 <= i < list@.len() ==> {
            let a = list@[i];
            let r = reports_of(ac)[i];
            &&& r.hex == a.hex@
            &&& r.flight == opt_text(a.flight)
            &&& r.registration == opt_text(a.r)
            &&& r.alt_baro == opt_content(a.alt_baro)
            &&& r.gs == a.gs
            &&& r.track == a.track
            &&& r.lat == a.lat
            &&& r.lon == a.lon
            &&& r.seen_pos == a.seen_pos
        }),
{
}

/// The time of an answer is that of the server in whole seconds, with what is less cut off,
/// and zero where the server gives none.
pub proof fn server_time_is_in_whole_seconds(now: Option<i64>)
    ensures
        now is None ==> server_seconds(now) == 0,
        now matches Some(ms) ==> (ms >= 0 ==> 1000 * server_seconds(now) <= ms < 1000 * (
        server_seconds(now) + 1)),
        now matches Some(ms) ==> (ms <= 0 ==> 1000 * (server_seconds(now) - 1) < ms <= 1000
            * server_seconds(now)),
{
}

} // verus!
