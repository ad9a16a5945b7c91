//! Aircraft that come too close to each other.
//!
//! Two airborne aircraft are in conflict where less than 3 NM lie between them
//! horizontally and less than 1000 ft vertically. The positions of now and those
//! reckoned for the end of a horizon are examined.

use crate::analysis::{or_zero, value_or_zero};
use crate::formula::{computes, is_symmetric, is_unit, Formula};
use crate::measure::Real;
use crate::order::{
    equals_of, is_preorder, lemma_first_found, lemma_first_place, lemma_pigeonhole,
    lemma_push_members, lemma_two_places, sorted_by, sorted_is_ordered, sorted_keeps_equals,
    sorted_members, stable_sort,
};
use crate::text::{
    is_text_le, lemma_text_le_antisymmetric, lemma_text_le_total, lemma_text_le_transitive, text_le,
};
use crate::types::{contents, Aircraft, AircraftView, Conflict, ConflictView};
use vstd::prelude::*;

verus! {

/// Least horizontal separation in nautical miles.
pub const SEPARATION_HORIZ_NM: u64 = 3;

/// Least vertical separation in feet.
pub const SEPARATION_VERT_FT: u64 = 1000;

/// Longitude and latitude of an aircraft `dt_s` seconds from now.
pub open spec fn position_at(
    f: spec_fn(Formula) -> Real,
    a: AircraftView,
    dt_s: Real,
) -> (Real, Real) {
    if dt_s.above(0) {
        let heading_deg = or_zero(a.heading);
        let speed_ms = or_zero(a.velocity_ms);
        (
            f(
                Formula::ReckonedLng {
                    lng: a.longitude,
                    lat: a.latitude,
                    heading_deg,
                    speed_ms,
                    dt_s,
                },
            ),
            f(
                Formula::ReckonedLat {
                    lng: a.longitude,
                    lat: a.latitude,
                    heading_deg,
                    speed_ms,
                    dt_s,
                },
            ),
        )
    } else {
        (a.longitude, a.latitude)
    }
}

/// How two aircraft stand to each other `dt_s` seconds from now.
pub open spec fn encounter(
    f: spec_fn(Formula) -> Real,
    a: AircraftView,
    b: AircraftView,
    dt_s: Real,
) -> ConflictView {
    let (a_lng, a_lat) = position_at(f, a, dt_s);
    let (b_lng, b_lat) = position_at(f, b, dt_s);
    let metres = f(Formula::Distance { lat1: a_lat, lng1: a_lng, lat2: b_lat, lng2: b_lng });
    ConflictView {
        a_icao: a.icao24,
        b_icao: b.icao24,
        a_callsign: a.callsign,
        b_callsign: b.callsign,
        horizontal_nm: f(Formula::NauticalMiles { metres }),
        vertical_ft: f(
            Formula::VerticalFeet { a_m: or_zero(a.altitude_m), b_m: or_zero(b.altitude_m) },
        ),
        seconds_from_now: dt_s,
        at_lng: f(Formula::Midpoint { a: a_lng, b: b_lng }),
        at_lat: f(Formula::Midpoint { a: a_lat, b: b_lat }),
    }
}

/// Both are airborne and closer than the separation minima `dt_s` seconds from now.
pub open spec fn too_close(
    f: spec_fn(Formula) -> Real,
    a: AircraftView,
    b: AircraftView,
    dt_s: Real,
) -> bool {
    &&& !a.on_ground
    &&& !b.on_ground
    &&& encounter(f, a, b, dt_s).horizontal_nm.below(SEPARATION_HORIZ_NM as int)
    &&& encounter(f, a, b, dt_s).vertical_ft.below(SEPARATION_VERT_FT as int)
}

/// The conflicts of aircraft `i` with those behind it in the list, up to place `end`.
pub open spec fn conflicts_of(
    f: spec_fn(Formula) -> Real,
    s: Seq<AircraftView>,
    i: int,
    end: int,
    dt_s: Real,
) -> Seq<ConflictView>
    decreases end,
{
    if end <= i + 1 || end <= 0 {
        Seq::empty()
    } else if too_close(f, s[i], s[end - 1], dt_s) {
        conflicts_of(f, s, i, end - 1, dt_s).push(encounter(f, s[i], s[end - 1], dt_s))
    } else {
        conflicts_of(f, s, i, end - 1, dt_s)
    }
}

/// The conflicts of the first `n` aircraft with those behind each of them.
pub open spec fn conflicts_among(
    f: spec_fn(Formula) -> Real,
    s: Seq<AircraftView>,
    n: int,
    dt_s: Real,
) -> Seq<ConflictView>
    decreases n,
{
    if n <= 0 {
        Seq::empty()
    } else {
        conflicts_among(f, s, n - 1, dt_s) + conflicts_of(f, s, n - 1, s.len() as int, dt_s)
    }
}

/// The conflicts of now, then those at the end of the horizon.
pub open spec fn all_conflicts(
    f: spec_fn(Formula) -> Real,
    s: Seq<AircraftView>,
    horizon_s: Real,
) -> Seq<ConflictView> {
    conflicts_among(f, s, s.len() as int, Real::of(0)) + conflicts_among(
        f,
        s,
        s.len() as int,
        horizon_s,
    )
}

/// Both are about the same two aircraft.
pub open spec fn same_pair(x: ConflictView, y: ConflictView) -> bool {
    x.a_icao == y.a_icao && x.b_icao == y.b_icao
}

/// Order of conflicts: by the first aircraft, then the second, then by time.
pub open spec fn conflict_le(x: ConflictView, y: ConflictView) -> bool {
    if x.a_icao != y.a_icao {
        text_le(x.a_icao, y.a_icao)
    } else if x.b_icao != y.b_icao {
        text_le(x.b_icao, y.b_icao)
    } else {
        x.seconds_from_now.whole_i64() <= y.seconds_from_now.whole_i64()
    }
}

/// `s` without the conflicts that follow one about the same two aircraft.
pub open spec fn first_of_each(s: Seq<ConflictView>) -> Seq<ConflictView>
    decreases s.len(),
{
    if s.len() == 0 {
        s
    } else {
        let kept = first_of_each(s.drop_last());
        if kept.len() > 0 && same_pair(kept.last(), s.last()) {
            kept
        } else {
            kept.push(s.last())
        }
    }
}

/// The conflicts to report: in order, and of each pair the earliest.
pub open spec fn conflicts(
    f: spec_fn(Formula) -> Real,
    s: Seq<AircraftView>,
    horizon_s: Real,
) -> Seq<ConflictView> {
    first_of_each(
        sorted_by(all_conflicts(f, s, horizon_s), conflict_order()),
    )
}

/// Longitude and latitude of an aircraft `dt_s` seconds from now.
fn reckon<U: Fn(Formula) -> Real>(a: &Aircraft, dt_s: Real, unit: &U) -> (r: (Real, Real))
    requires
        is_unit(*unit),
    ensures
        forall|f: spec_fn(Formula) -> Real| #[trigger]
            computes(*unit, f) ==> r == position_at(f, a@, dt_s),
{
    if dt_s.is_above(0) {
        let heading_deg = value_or_zero(a.heading);
        let speed_ms = value_or_zero(a.velocity_ms);
        let lng = a.longitude;
        let lat = a.latitude;
        (
            unit(Formula::ReckonedLng { lng, lat, heading_deg, speed_ms, dt_s }),
            unit(Formula::ReckonedLat { lng, lat, heading_deg, speed_ms, dt_s }),
        )
    } else {
        (a.longitude, a.latitude)
    }
}

/// The conflict of two aircraft `dt_s` seconds from now, if there is one.
pub fn check_pair<U: Fn(Formula) -> Real>(a: &Aircraft, b: &Aircraft, dt_s: Real, unit: &U) -> (r:
    Option<Conflict>)
    requires
        is_unit(*unit),
    ensures
        forall|f: spec_fn(Formula) -> Real| #[trigger]
            computes(*unit, f) ==> {
                &&& r is Some <==> too_close(f, a@, b@, dt_s)
                &&& r is Some ==> r->0@ == encounter(f, a@, b@, dt_s)
            },
{
    if a.on_ground || b.on_ground {
        return None;
    }
    let (a_lng, a_lat) = reckon(a, dt_s, unit);
    let (b_lng, b_lat) = reckon(b, dt_s, unit);
    let metres = unit(Formula::Distance { lat1: a_lat, lng1: a_lng, lat2: b_lat, lng2: b_lng });
    let horizontal_nm = unit(Formula::NauticalMiles { metres });
    let vertical_ft = unit(
        Formula::VerticalFeet {
            a_m: value_or_zero(a.altitude_m),
            b_m: value_or_zero(b.altitude_m),
        },
    );
    if horizontal_nm.is_below(SEPARATION_HORIZ_NM) && vertical_ft.is_below(SEPARATION_VERT_FT) {
        Some(
            Conflict {
                a_icao: a.icao24.clone(),
                b_icao: b.icao24.clone(),
                a_callsign: a.callsign.clone(),
                b_callsign: b.callsign.clone(),
                horizontal_nm,
                vertical_ft,
                seconds_from_now: dt_s,
                at_lng: unit(Formula::Midpoint { a: a_lng, b: b_lng }),
                at_lat: unit(Formula::Midpoint { a: a_lat, b: b_lat }),
            },
        )
    } else {
        None
    }
}

/// Appends the conflicts among all aircraft `dt_s` seconds from now.
fn collect_conflicts<U: Fn(Formula) -> Real>(
    aircraft: &[Aircraft],
    dt_s: Real,
    out: &mut Vec<Conflict>,
    unit: &U,
)
    requires
        is_unit(*unit),
    ensures
        forall|f: spec_fn(Formula) -> Real| #[trigger]
            computes(*unit, f) ==> contents(final(out)@) == contents(old(out)@) + conflicts_among(
                f,
                contents(aircraft@),
                aircraft@.len() as int,
                dt_s,
            ),
{
    let n: usize = aircraft.len();
    let ghost s = contents(aircraft@);
    let ghost before = contents(out@);
    let mut i: usize = 0;
    assert forall|f: spec_fn(Formula) -> Real| #[trigger] computes(*unit, f) implies contents(out@)
        == before + conflicts_among(f, s, 0, dt_s) by {
        assert(before + conflicts_among(f, s, 0, dt_s) =~= before);
    }
    while i < n
        invariant
            is_unit(*unit),
            n == aircraft@.len(),
            i <= n,
            s == contents(aircraft@),
            forall|f: spec_fn(Formula) -> Real| #[trigger]
                computes(*unit, f) ==> contents(out@) == before + conflicts_among(
                    f,
                    s,
                    i as int,
                    dt_s,
                ),
        decreases n - i,
    {
        let ghost outer = contents(out@);
        let mut j: usize = i + 1;
        assert forall|f: spec_fn(Formula) -> Real| #[trigger] computes(*unit, f) implies contents(
            out@,
        ) == outer + conflicts_of(f, s, i as int, j as int, dt_s) by {
            assert(outer + conflicts_of(f, s, i as int, j as int, dt_s) =~= outer);
        }
        while j < n
            invariant
                is_unit(*unit),
                n == aircraft@.len(),
                i < j <= n,
                s == contents(aircraft@),
                forall|f: spec_fn(Formula) -> Real| #[trigger]
                    computes(*unit, f) ==> contents(out@) == outer + conflicts_of(
                        f,
                        s,
                        i as int,
                        j as int,
                        dt_s,
                    ),
            decreases n - j,
        {
            let ghost inner = contents(out@);
            match check_pair(&aircraft[i], &aircraft[j], dt_s, unit) {
                Some(c) => {
                    out.push(c);
                    assert(contents(out@) =~= inner.push(c@));
                    assert forall|f: spec_fn(Formula) -> Real| #[trigger]
                        computes(*unit, f) implies contents(out@) == outer + conflicts_of(
                        f,
                        s,
                        i as int,
                        j + 1,
                        dt_s,
                    ) by {
                        assert(s[i as int] == aircraft@[i as int]@);
                        assert(s[j as int] == aircraft@[j as int]@);
                        let row = conflicts_of(f, s, i as int, j as int, dt_s);
                        assert((outer + row).push(c@) =~= outer + row.push(c@));
                    }
                },
                None => {
                    assert(s[i as int] == aircraft@[i as int]@);
                    assert(s[j as int] == aircraft@[j as int]@);
                },
            }
            j = j + 1;
        }
        assert forall|f: spec_fn(Formula) -> Real| #[trigger] computes(*unit, f) implies contents(
            out@,
        ) == before + conflicts_among(f, s, i + 1, dt_s) by {
            let rows = conflicts_among(f, s, i as int, dt_s);
            let row = conflicts_of(f, s, i as int, n as int, dt_s);
            assert((before + rows) + row =~= before + (rows + row));
        }
        i = i + 1;
    }
}

/// Whether `x` stands before `y`, or is its equal.
fn conflict_before(x: &Conflict, y: &Conflict) -> (r: bool)
    ensures
        r == conflict_le(x@, y@),
{
    if x.a_icao != y.a_icao {
        is_text_le(x.a_icao.as_str(), y.a_icao.as_str())
    } else if x.b_icao != y.b_icao {
        is_text_le(x.b_icao.as_str(), y.b_icao.as_str())
    } else {
        x.seconds_from_now.to_i64() <= y.seconds_from_now.to_i64()
    }
}

/// Drops the conflicts that follow one about the same two aircraft.
fn keep_first(sorted: Vec<Conflict>) -> (r: Vec<Conflict>)
    ensures
        contents(r@) == first_of_each(contents(sorted@)),
{
    let mut out: Vec<Conflict> = Vec::new();
    let ghost all = contents(sorted@);
    assert(all.take(0) =~= Seq::<ConflictView>::empty());
    assert(contents(out@) =~= Seq::<ConflictView>::empty());
    for c in it: sorted
        invariant
            all == contents(it.seq()),
            contents(out@) == first_of_each(all.take(it.index())),
    {
        proof {
            let k = it.index();
            assert(all.take(k + 1).drop_last() =~= all.take(k));
            assert(all.take(k + 1).last() == c@);
        }
        let ghost before = contents(out@);
        let n: usize = out.len();
        let repeats = n > 0 && out[n - 1].a_icao == c.a_icao && out[n - 1].b_icao == c.b_icao;
        assert(n > 0 ==> before.last() == out@[n - 1]@);
        if !repeats {
            out.push(c);
            assert(contents(out@) =~= before.push(c@));
        }
    }
    assert(all.take(all.len() as int) =~= all);
    out
}

/// The conflicts of now and of the end of the horizon, of each pair the earliest.
pub fn detect_conflicts<U: Fn(Formula) -> Real>(
    aircraft: &[Aircraft],
    horizon_s: Real,
    unit: &U,
) -> (r: Vec<Conflict>)
    requires
        is_unit(*unit),
    ensures
        forall|f: spec_fn(Formula) -> Real| #[trigger]
            computes(*unit, f) ==> contents(r@) == conflicts(f, contents(aircraft@), horizon_s),
{
    let mut out: Vec<Conflict> = Vec::new();
    assert(contents(out@) =~= Seq::<ConflictView>::empty());
    collect_conflicts(aircraft, Real::zero(), &mut out, unit);
    collect_conflicts(aircraft, horizon_s, &mut out, unit);
    assert forall|f: spec_fn(Formula) -> Real| #[trigger] computes(*unit, f) implies contents(out@)
        == all_conflicts(f, contents(aircraft@), horizon_s) by {
        let now = conflicts_among(f, contents(aircraft@), aircraft@.len() as int, Real::of(0));
        assert(Seq::<ConflictView>::empty() + now =~= now);
    }
    let before = |x: &Conflict, y: &Conflict| -> (b: bool)
        ensures
            b == conflict_le(x@, y@),
        { conflict_before(x, y) };
    let sorted = stable_sort(out, &before, Ghost(conflict_order()));
    keep_first(sorted)
}

/// The order of conflicts as a function.
pub open spec fn conflict_order() -> spec_fn(ConflictView, ConflictView) -> bool {
    |x: ConflictView, y: ConflictView| conflict_le(x, y)
}

/// Aircraft `i` and `j` of the list, `i` the earlier one, are too close to each other
/// now or at the end of the horizon, `dt_s` seconds from now.
pub open spec fn in_conflict(
    f: spec_fn(Formula) -> Real,
    s: Seq<AircraftView>,
    horizon_s: Real,
    i: int,
    j: int,
    dt_s: Real,
) -> bool {
    &&& 0 <= i < j < s.len()
    &&& dt_s == Real::of(0) || dt_s == horizon_s
    &&& too_close(f, s[i], s[j], dt_s)
}

proof fn lemma_conflict_le_total(x: ConflictView, y: ConflictView)
    ensures
        conflict_le(x, y) || conflict_le(y, x),
{
    lemma_text_le_total(x.a_icao, y.a_icao);
    lemma_text_le_total(x.b_icao, y.b_icao);
}

proof fn lemma_conflict_le_transitive(x: ConflictView, y: ConflictView, z: ConflictView)
    requires
        conflict_le(x, y),
        conflict_le(y, z),
    ensures
        conflict_le(x, z),
{
    if x.a_icao != y.a_icao && y.a_icao != z.a_icao {
        lemma_text_le_transitive(x.a_icao, y.a_icao, z.a_icao);
        if x.a_icao == z.a_icao {
            lemma_text_le_antisymmetric(x.a_icao, y.a_icao);
        }
    } else if x.a_icao == y.a_icao && y.a_icao == z.a_icao {
        if x.b_icao != y.b_icao && y.b_icao != z.b_icao {
            lemma_text_le_transitive(x.b_icao, y.b_icao, z.b_icao);
            if x.b_icao == z.b_icao {
                lemma_text_le_antisymmetric(x.b_icao, y.b_icao);
            }
        }
    }
}

/// Every two conflicts are ordered, and the order is transitive.
pub proof fn conflict_order_is_preorder()
    ensures
        is_preorder(conflict_order()),
{
    let le = conflict_order();
    assert forall|x: ConflictView, y: ConflictView| #[trigger] le(x, y) || le(y, x) by {
        lemma_conflict_le_total(x, y);
    }
    assert forall|x: ConflictView, y: ConflictView, z: ConflictView| #[trigger]
        le(x, y) && #[trigger] le(y, z) implies le(x, z) by {
        lemma_conflict_le_transitive(x, y, z);
    }
}

/// What stands between two conflicts about the same two aircraft is about them too.
proof fn lemma_between_same(x: ConflictView, y: ConflictView, z: ConflictView)
    requires
        same_pair(x, z),
        conflict_le(x, y),
        conflict_le(y, z),
    ensures
        same_pair(y, z),
{
    if x.a_icao != y.a_icao {
        lemma_text_le_antisymmetric(x.a_icao, y.a_icao);
    }
    if x.b_icao != y.b_icao {
        lemma_text_le_antisymmetric(x.b_icao, y.b_icao);
    }
}

/// `kept` is what an ordered list keeps: members of it, in order, no two about the same
/// two aircraft, and for every member the earliest about the same two.
spec fn is_kept(s: Seq<ConflictView>, kept: Seq<ConflictView>) -> bool {
    &&& s.len() > 0 ==> kept.len() > 0 && same_pair(kept.last(), s.last())
    &&& forall|i: int| 0 <= i < kept.len() ==> s.contains(#[trigger] kept[i])
    &&& forall|i: int, j: int|
        0 <= i < j < kept.len() ==> conflict_le(kept[i], kept[j]) && !same_pair(kept[i], kept[j])
    &&& forall|k: int| 0 <= k < s.len() ==> has_earliest(kept, #[trigger] s[k])
}

/// `kept` holds a conflict about the same two aircraft that is not later than `c`.
spec fn has_earliest(kept: Seq<ConflictView>, c: ConflictView) -> bool {
    exists|i: int|
        0 <= i < kept.len() && same_pair(#[trigger] kept[i], c) && conflict_le(kept[i], c)
}

proof fn lemma_kept_repeat(s: Seq<ConflictView>, kept: Seq<ConflictView>, x: ConflictView)
    requires
        is_kept(s, kept),
        kept.len() > 0,
        same_pair(kept.last(), x),
        conflict_le(kept.last(), x),
    ensures
        is_kept(s.push(x), kept),
{
    let now = s.push(x);
    assert forall|i: int| 0 <= i < kept.len() implies now.contains(#[trigger] kept[i]) by {
        lemma_push_members(s, x, kept[i]);
    }
    assert forall|k: int| 0 <= k < now.len() implies has_earliest(kept, #[trigger] now[k]) by {
        if k < s.len() {
            assert(now[k] == s[k]);
        } else {
            assert(same_pair(kept[kept.len() - 1], x));
        }
    }
}

proof fn lemma_kept_new(s: Seq<ConflictView>, kept: Seq<ConflictView>, x: ConflictView)
    requires
        is_kept(s, kept),
        kept.len() > 0 ==> !same_pair(kept.last(), x),
        forall|k: int| 0 <= k < s.len() ==> conflict_le(#[trigger] s[k], x),
    ensures
        is_kept(s.push(x), kept.push(x)),
{
    let now = s.push(x);
    let more = kept.push(x);
    lemma_conflict_le_total(x, x);
    assert forall|i: int| 0 <= i < kept.len() implies conflict_le(#[trigger] kept[i], x)
        && !same_pair(kept[i], x) by {
        assert(s.contains(kept[i]));
        assert(s.contains(kept[kept.len() - 1]));
        if same_pair(kept[i], x) {
            if i < kept.len() - 1 {
                lemma_between_same(kept[i], kept[kept.len() - 1], x);
            }
        }
    }
    assert forall|i: int| 0 <= i < more.len() implies now.contains(#[trigger] more[i]) by {
        lemma_push_members(s, x, more[i]);
        if i < kept.len() {
            assert(s.contains(kept[i]));
        }
    }
    assert forall|k: int| 0 <= k < now.len() implies has_earliest(more, #[trigger] now[k]) by {
        if k < s.len() {
            assert(has_earliest(kept, s[k]));
            let i = choose|i: int|
                0 <= i < kept.len() && same_pair(#[trigger] kept[i], s[k]) && conflict_le(
                    kept[i],
                    s[k],
                );
            assert(more[i] == kept[i]);
        } else {
            assert(more[kept.len() as int] == x);
        }
    }
}

proof fn lemma_first_of_each(s: Seq<ConflictView>)
    requires
        forall|i: int, j: int| 0 <= i < j < s.len() ==> conflict_le(s[i], s[j]),
    ensures
        is_kept(s, first_of_each(s)),
    decreases s.len(),
{
    if s.len() > 0 {
        let head = s.drop_last();
        let x = s.last();
        lemma_first_of_each(head);
        let kept = first_of_each(head);
        assert(head.push(x) =~= s);
        assert forall|k: int| 0 <= k < head.len() implies conflict_le(#[trigger] head[k], x) by {
            assert(conflict_le(s[k], s[s.len() - 1]));
        }
        if kept.len() > 0 && same_pair(kept.last(), x) {
            assert(head.contains(kept[kept.len() - 1]));
            lemma_kept_repeat(head, kept, x);
        } else {
            lemma_kept_new(head, kept, x);
        }
    }
}

/// What stands in the conflicts of one aircraft.
proof fn lemma_conflicts_of(
    f: spec_fn(Formula) -> Real,
    s: Seq<AircraftView>,
    i: int,
    end: int,
    dt_s: Real,
    c: ConflictView,
)
    requires
        0 <= i,
    ensures
        conflicts_of(f, s, i, end, dt_s).contains(c) <==> exists|j: int|
            i < j < end && #[trigger] too_close(f, s[i], s[j], dt_s) && c == encounter(
                f,
                s[i],
                s[j],
                dt_s,
            ),
    decreases end,
{
    if end > i + 1 {
        lemma_conflicts_of(f, s, i, end - 1, dt_s, c);
        lemma_push_members(
            conflicts_of(f, s, i, end - 1, dt_s),
            encounter(f, s[i], s[end - 1], dt_s),
            c,
        );
    }
}

/// What stands in the conflicts at one moment.
proof fn lemma_conflicts_among(
    f: spec_fn(Formula) -> Real,
    s: Seq<AircraftView>,
    n: int,
    dt_s: Real,
    c: ConflictView,
)
    requires
        n <= s.len(),
    ensures
        conflicts_among(f, s, n, dt_s).contains(c) <==> exists|i: int, j: int|
            0 <= i < n && i < j < s.len() && #[trigger] too_close(f, s[i], s[j], dt_s) && c
                == encounter(f, s[i], s[j], dt_s),
    decreases n,
{
    if n > 0 {
        lemma_conflicts_among(f, s, n - 1, dt_s, c);
        lemma_conflicts_of(f, s, n - 1, s.len() as int, dt_s, c);
        let a = conflicts_among(f, s, n - 1, dt_s);
        let b = conflicts_of(f, s, n - 1, s.len() as int, dt_s);
        lemma_join_members(a, b, c);
    }
}

proof fn lemma_join_members(a: Seq<ConflictView>, b: Seq<ConflictView>, c: ConflictView)
    ensures
        (a + b).contains(c) <==> (a.contains(c) || b.contains(c)),
{
    if a.contains(c) {
        let i = choose|i: int| 0 <= i < a.len() && a[i] == c;
        assert((a + b)[i] == c);
    }
    if b.contains(c) {
        let i = choose|i: int| 0 <= i < b.len() && b[i] == c;
        assert((a + b)[a.len() + i] == c);
    }
}

/// No two reports are about the same two aircraft, and the reports are in order.
pub proof fn reports_are_ordered_and_distinct(
    f: spec_fn(Formula) -> Real,
    s: Seq<AircraftView>,
    horizon_s: Real,
)
    ensures
        forall|i: int, j: int|
            0 <= i < j < conflicts(f, s, horizon_s).len() ==> conflict_le(
                conflicts(f, s, horizon_s)[i],
                conflicts(f, s, horizon_s)[j],
            ) && !same_pair(conflicts(f, s, horizon_s)[i], conflicts(f, s, horizon_s)[j]),
{
    conflict_order_is_preorder();
    let all = all_conflicts(f, s, horizon_s);
    sorted_is_ordered(all, conflict_order());
    lemma_first_of_each(sorted_by(all, conflict_order()));
}

/// Every report is of two airborne aircraft of the list that are closer than the
/// separation minima now or at the end of the horizon.
pub proof fn reports_are_sound(
    f: spec_fn(Formula) -> Real,
    s: Seq<AircraftView>,
    horizon_s: Real,
    c: ConflictView,
)
    requires
        conflicts(f, s, horizon_s).contains(c),
    ensures
        exists|i: int, j: int, dt_s: Real| #[trigger]
            in_conflict(f, s, horizon_s, i, j, dt_s) && c == encounter(f, s[i], s[j], dt_s),
{
    conflict_order_is_preorder();
    let all = all_conflicts(f, s, horizon_s);
    let sorted = sorted_by(all, conflict_order());
    sorted_is_ordered(all, conflict_order());
    lemma_first_of_each(sorted);
    sorted_members(all, c, conflict_order());
    let n = s.len() as int;
    let zero = Real::of(0);
    lemma_join_members(conflicts_among(f, s, n, zero), conflicts_among(f, s, n, horizon_s), c);
    lemma_conflicts_among(f, s, n, zero, c);
    lemma_conflicts_among(f, s, n, horizon_s, c);
    let dt_s = if conflicts_among(f, s, n, zero).contains(c) {
        zero
    } else {
        horizon_s
    };
    let (i, j) = choose|i: int, j: int|
        0 <= i < n && i < j < s.len() && #[trigger] too_close(f, s[i], s[j], dt_s) && c
            == encounter(f, s[i], s[j], dt_s);
    assert(in_conflict(f, s, horizon_s, i, j, dt_s));
}

/// Every two airborne aircraft that are closer than the separation minima now or at the
/// end of the horizon are reported, with a moment that is not later than that one.
pub proof fn every_conflict_is_reported(
    f: spec_fn(Formula) -> Real,
    s: Seq<AircraftView>,
    horizon_s: Real,
    i: int,
    j: int,
    dt_s: Real,
)
    requires
        in_conflict(f, s, horizon_s, i, j, dt_s),
    ensures
        exists|k: int|
            0 <= k < conflicts(f, s, horizon_s).len() && ({
                let c = #[trigger] conflicts(f, s, horizon_s)[k];
                &&& c.a_icao == s[i].icao24
                &&& c.b_icao == s[j].icao24
                &&& c.seconds_from_now.whole_i64() <= dt_s.whole_i64()
            }),
{
    conflict_order_is_preorder();
    let all = all_conflicts(f, s, horizon_s);
    let sorted = sorted_by(all, conflict_order());
    let c = encounter(f, s[i], s[j], dt_s);
    let n = s.len() as int;
    let zero = Real::of(0);
    assert(too_close(f, s[i], s[j], dt_s));
    lemma_conflicts_among(f, s, n, dt_s, c);
    lemma_join_members(conflicts_among(f, s, n, zero), conflicts_among(f, s, n, horizon_s), c);
    sorted_is_ordered(all, conflict_order());
    sorted_members(all, c, conflict_order());
    lemma_first_of_each(sorted);
    let k = choose|k: int| 0 <= k < sorted.len() && sorted[k] == c;
    let kept = first_of_each(sorted);
    assert(has_earliest(kept, sorted[k]));
    let m = choose|m: int|
        0 <= m < kept.len() && same_pair(#[trigger] kept[m], sorted[k]) && conflict_le(
            kept[m],
            sorted[k],
        );
    assert(conflicts(f, s, horizon_s)[m] == kept[m]);
}

/// The same conflict with the two aircraft in the other order.
pub open spec fn swapped(c: ConflictView) -> ConflictView {
    ConflictView {
        a_icao: c.b_icao,
        b_icao: c.a_icao,
        a_callsign: c.b_callsign,
        b_callsign: c.a_callsign,
        ..c
    }
}

/// Two aircraft are in conflict in either order, and only the names change places, where
/// distances, differences of height and middles do not depend on which of the two comes
/// first.
pub proof fn conflicts_are_mutual(
    f: spec_fn(Formula) -> Real,
    a: AircraftView,
    b: AircraftView,
    dt_s: Real,
)
    requires
        is_symmetric(f),
    ensures
        too_close(f, b, a, dt_s) == too_close(f, a, b, dt_s),
        encounter(f, b, a, dt_s) == swapped(encounter(f, a, b, dt_s)),
{
    let (a_lng, a_lat) = position_at(f, a, dt_s);
    let (b_lng, b_lat) = position_at(f, b, dt_s);
    assert(f(Formula::Distance { lat1: a_lat, lng1: a_lng, lat2: b_lat, lng2: b_lng }) == f(
        Formula::Distance { lat1: b_lat, lng1: b_lng, lat2: a_lat, lng2: a_lng },
    ));
}

/// `c` is the first conflict of the list about its two aircraft.
spec fn is_first(s: Seq<ConflictView>, c: ConflictView) -> bool {
    exists|k: int|
        0 <= k < s.len() && #[trigger] s[k] == c && forall|m: int|
            0 <= m < k ==> !same_pair(#[trigger] s[m], c)
}

proof fn lemma_first_stays(s: Seq<ConflictView>, x: ConflictView, c: ConflictView)
    requires
        is_first(s, c),
    ensures
        is_first(s.push(x), c),
{
    let now = s.push(x);
    let k = choose|k: int|
        0 <= k < s.len() && #[trigger] s[k] == c && forall|m: int|
            0 <= m < k ==> !same_pair(#[trigger] s[m], c);
    assert(now[k] == c);
    assert forall|m: int| 0 <= m < k implies !same_pair(#[trigger] now[m], c) by {
        assert(now[m] == s[m]);
    }
}

proof fn lemma_new_is_first(s: Seq<ConflictView>, kept: Seq<ConflictView>, x: ConflictView)
    requires
        forall|k: int| 0 <= k < s.len() ==> has_earliest(kept, #[trigger] s[k]),
        forall|p: int| 0 <= p < kept.len() ==> !same_pair(#[trigger] kept[p], x),
    ensures
        is_first(s.push(x), x),
{
    let now = s.push(x);
    let n = s.len() as int;
    assert(now[n] == x);
    assert forall|m: int| 0 <= m < n implies !same_pair(#[trigger] now[m], x) by {
        assert(now[m] == s[m]);
        assert(has_earliest(kept, s[m]));
    }
}

/// What an ordered list keeps are the first conflicts about each two aircraft.
proof fn lemma_kept_are_first(s: Seq<ConflictView>)
    requires
        forall|i: int, j: int| 0 <= i < j < s.len() ==> conflict_le(s[i], s[j]),
    ensures
        forall|i: int|
            0 <= i < first_of_each(s).len() ==> is_first(s, #[trigger] first_of_each(s)[i]),
    decreases s.len(),
{
    if s.len() > 0 {
        let head = s.drop_last();
        let x = s.last();
        let kept = first_of_each(head);
        let more = first_of_each(s);
        lemma_kept_are_first(head);
        assert(head.push(x) =~= s);
        if !(kept.len() > 0 && same_pair(kept.last(), x)) {
            lemma_kept_apart(s);
            lemma_new_is_first(head, kept, x);
        }
        assert forall|i: int| 0 <= i < more.len() implies is_first(s, #[trigger] more[i]) by {
            if i < kept.len() {
                assert(more[i] == kept[i]);
                lemma_first_stays(head, x, kept[i]);
            }
        }
    }
}

/// Where the last conflict of an ordered list is kept, the others that are kept are about
/// other aircraft, and stand for all before it.
proof fn lemma_kept_apart(s: Seq<ConflictView>)
    requires
        s.len() > 0,
        forall|i: int, j: int| 0 <= i < j < s.len() ==> conflict_le(s[i], s[j]),
        first_of_each(s) == first_of_each(s.drop_last()).push(s.last()),
    ensures
        ({
            let kept = first_of_each(s.drop_last());
            &&& forall|k: int|
                0 <= k < s.len() - 1 ==> has_earliest(kept, #[trigger] s.drop_last()[k])
            &&& forall|p: int| 0 <= p < kept.len() ==> !same_pair(#[trigger] kept[p], s.last())
        }),
{
    let kept = first_of_each(s.drop_last());
    let more = first_of_each(s);
    lemma_first_of_each(s.drop_last());
    lemma_first_of_each(s);
    assert forall|p: int| 0 <= p < kept.len() implies !same_pair(#[trigger] kept[p], s.last()) by {
        assert(more[p] == kept[p]);
        assert(more[kept.len() as int] == s.last());
        assert(!same_pair(more[p], more[kept.len() as int]));
    }
}

/// No other aircraft of the list has the address of the one at place `i`.
pub open spec fn is_alone(s: Seq<AircraftView>, i: int) -> bool {
    forall|k: int| 0 <= k < s.len() && k != i ==> (#[trigger] s[k]).icao24 != s[i].icao24
}

/// The conflict of two aircraft that is to be reported: the one of now, unless the one at
/// the end of the horizon lies before it.
pub open spec fn earliest(
    f: spec_fn(Formula) -> Real,
    a: AircraftView,
    b: AircraftView,
    horizon_s: Real,
) -> Option<ConflictView> {
    let now = too_close(f, a, b, Real::of(0));
    let later = too_close(f, a, b, horizon_s);
    if now && !(later && horizon_s.whole_i64() < 0) {
        Some(encounter(f, a, b, Real::of(0)))
    } else if later {
        Some(encounter(f, a, b, horizon_s))
    } else {
        None
    }
}

/// The conflict of now stands before one of the same second.
proof fn lemma_now_comes_first(
    f: spec_fn(Formula) -> Real,
    s: Seq<AircraftView>,
    horizon_s: Real,
    i: int,
    j: int,
    c: ConflictView,
)
    requires
        0 <= i < j < s.len(),
        is_alone(s, i),
        is_alone(s, j),
        too_close(f, s[i], s[j], Real::of(0)),
        conflicts(f, s, horizon_s).contains(c),
        same_pair(c, encounter(f, s[i], s[j], Real::of(0))),
        c.seconds_from_now.whole_i64() == Real::of(0).whole_i64(),
    ensures
        c == encounter(f, s[i], s[j], Real::of(0)),
{
    let zero = Real::of(0);
    let e = encounter(f, s[i], s[j], zero);
    let le = conflict_order();
    let kind = |x: ConflictView| le(x, e) && le(e, x);
    let n = s.len() as int;
    let now = conflicts_among(f, s, n, zero);
    let later = conflicts_among(f, s, n, horizon_s);
    let all = now + later;
    let sorted = sorted_by(all, le);
    conflict_order_is_preorder();
    sorted_is_ordered(all, le);
    assert forall|x: ConflictView| #[trigger] kind(x) implies same_pair(x, e) by {
        lemma_between_same(e, x, e);
    }
    // The conflict of now is the first of its kind among those found.
    lemma_conflicts_among(f, s, n, zero, e);
    let p = choose|p: int| 0 <= p < now.len() && now[p] == e;
    lemma_conflict_le_total(e, e);
    assert(kind(now[p]));
    let q = lemma_first_place(now, p, kind);
    lemma_conflicts_among(f, s, n, zero, now[q]);
    assert(now.contains(now[q]));
    let (x, y) = choose|x: int, y: int|
        0 <= x < n && x < y < s.len() && #[trigger] too_close(f, s[x], s[y], zero) && now[q]
            == encounter(f, s[x], s[y], zero);
    assert(same_pair(now[q], e));
    assert(x == i && y == j);
    lemma_first_found(now, q, kind);
    Seq::filter_distributes_over_add(now, later, kind);
    assert(all.filter(kind)[0] == e);
    // The one that is kept is the first of its kind in the sorted list.
    lemma_kept_are_first(sorted);
    let kept = first_of_each(sorted);
    let m = choose|m: int| 0 <= m < kept.len() && kept[m] == c;
    assert(is_first(sorted, kept[m]));
    let k = choose|k: int|
        0 <= k < sorted.len() && #[trigger] sorted[k] == c && forall|m: int|
            0 <= m < k ==> !same_pair(#[trigger] sorted[m], c);
    assert(kind(sorted[k]));
    assert forall|m: int| 0 <= m < k implies !kind(#[trigger] sorted[m]) by {
        assert(!same_pair(sorted[m], c));
    }
    lemma_first_found(sorted, k, kind);
    sorted_keeps_equals(all, e, le);
    assert(equals_of(sorted, e, le) == sorted.filter(kind));
    assert(equals_of(all, e, le) == all.filter(kind));
}

proof fn lemma_reported_is_earliest(
    f: spec_fn(Formula) -> Real,
    s: Seq<AircraftView>,
    horizon_s: Real,
    i: int,
    j: int,
    c: ConflictView,
)
    requires
        0 <= i < j < s.len(),
        is_alone(s, i),
        is_alone(s, j),
        conflicts(f, s, horizon_s).contains(c),
        c.a_icao == s[i].icao24,
        c.b_icao == s[j].icao24,
    ensures
        earliest(f, s[i], s[j], horizon_s) == Some(c),
{
    let zero = Real::of(0);
    let out = conflicts(f, s, horizon_s);
    crate::measure::lemma_zero_is_small(1);
    vstd::arithmetic::power2::lemma_pow2_pos(1074);
    assert(zero.whole_i64() == 0) by {
        vstd::arithmetic::div_mod::lemma_div_of0(crate::measure::one() as int);
    }
    reports_are_sound(f, s, horizon_s, c);
    let (x, y, dt_s) = choose|x: int, y: int, dt_s: Real| #[trigger]
        in_conflict(f, s, horizon_s, x, y, dt_s) && c == encounter(f, s[x], s[y], dt_s);
    assert(s[x].icao24 == s[i].icao24 && s[y].icao24 == s[j].icao24);
    assert(x == i && y == j);
    if too_close(f, s[i], s[j], zero) && too_close(f, s[i], s[j], horizon_s) {
        if horizon_s.whole_i64() == 0 {
            lemma_now_comes_first(f, s, horizon_s, i, j, c);
        } else {
            let soon = if horizon_s.whole_i64() < 0 {
                horizon_s
            } else {
                zero
            };
            assert(in_conflict(f, s, horizon_s, i, j, soon));
            every_conflict_is_reported(f, s, horizon_s, i, j, soon);
            let k = choose|k: int|
                0 <= k < out.len() && ({
                    let d = #[trigger] out[k];
                    &&& d.a_icao == s[i].icao24
                    &&& d.b_icao == s[j].icao24
                    &&& d.seconds_from_now.whole_i64() <= soon.whole_i64()
                });
            reports_are_ordered_and_distinct(f, s, horizon_s);
            let m = choose|m: int| 0 <= m < out.len() && out[m] == c;
            if k < m {
                assert(!same_pair(out[k], out[m]));
            } else if m < k {
                assert(!same_pair(out[m], out[k]));
            }
        }
    }
}

/// Of two aircraft whose addresses no others have, the earliest conflict is reported, and
/// no other.
pub proof fn the_earliest_is_reported(
    f: spec_fn(Formula) -> Real,
    s: Seq<AircraftView>,
    horizon_s: Real,
    i: int,
    j: int,
    c: ConflictView,
)
    requires
        0 <= i < j < s.len(),
        is_alone(s, i),
        is_alone(s, j),
    ensures
        conflicts(f, s, horizon_s).contains(c) && c.a_icao == s[i].icao24 && c.b_icao
            == s[j].icao24 <==> earliest(f, s[i], s[j], horizon_s) == Some(c),
{
    let out = conflicts(f, s, horizon_s);
    if out.contains(c) && c.a_icao == s[i].icao24 && c.b_icao == s[j].icao24 {
        lemma_reported_is_earliest(f, s, horizon_s, i, j, c);
    }
    if earliest(f, s[i], s[j], horizon_s) == Some(c) {
        let dt_s = c.seconds_from_now;
        assert(in_conflict(f, s, horizon_s, i, j, dt_s));
        every_conflict_is_reported(f, s, horizon_s, i, j, dt_s);
        let k = choose|k: int|
            0 <= k < out.len() && ({
                let d = #[trigger] out[k];
                &&& d.a_icao == s[i].icao24
                &&& d.b_icao == s[j].icao24
                &&& d.seconds_from_now.whole_i64() <= dt_s.whole_i64()
            });
        assert(out.contains(out[k]));
        lemma_reported_is_earliest(f, s, horizon_s, i, j, out[k]);
    }
}

/// `ys` holds the aircraft of `xs` and of `extra`, in any order. No two of `xs` have the
/// same address, and none of `extra` has an address of `xs`.
pub open spec fn is_extended(
    xs: Seq<AircraftView>,
    extra: Seq<AircraftView>,
    ys: Seq<AircraftView>,
) -> bool {
    &&& forall|i: int, j: int| 0 <= i < j < xs.len() ==> xs[i].icao24 != xs[j].icao24
    &&& forall|i: int, j: int|
        0 <= i < xs.len() && 0 <= j < extra.len() ==> xs[i].icao24 != extra[j].icao24
    &&& ys.to_multiset() == (xs + extra).to_multiset()
}

/// An aircraft of `xs` is the only one in `ys` with its address.
proof fn lemma_alone(
    xs: Seq<AircraftView>,
    extra: Seq<AircraftView>,
    ys: Seq<AircraftView>,
    i: int,
    p: int,
)
    requires
        is_extended(xs, extra, ys),
        0 <= i < xs.len(),
        0 <= p < ys.len(),
        ys[p] == xs[i],
    ensures
        is_alone(ys, p),
{
    let all = xs + extra;
    assert forall|k: int| 0 <= k < ys.len() && k != p implies (#[trigger] ys[k]).icao24
        != ys[p].icao24 by {
        let (a, b) = lemma_two_places(ys, all, k, p);
        if ys[k].icao24 == ys[p].icao24 {
            if a < xs.len() && b < xs.len() {
                assert(all[a] == xs[a] && all[b] == xs[b]);
                if a < b {
                    assert(xs[a].icao24 != xs[b].icao24);
                } else {
                    assert(xs[b].icao24 != xs[a].icao24);
                }
            } else if a >= xs.len() {
                assert(all[a] == extra[a - xs.len()]);
                assert(xs[i].icao24 != extra[a - xs.len()].icao24);
            } else {
                assert(all[b] == extra[b - xs.len()]);
                assert(xs[i].icao24 != extra[b - xs.len()].icao24);
            }
        }
    }
}

/// More aircraft, or another order of them, keep every report, up to which of the two
/// aircraft comes first, where distances, differences of height and middles do not depend
/// on that.
pub proof fn more_aircraft_keep_every_report(
    f: spec_fn(Formula) -> Real,
    xs: Seq<AircraftView>,
    extra: Seq<AircraftView>,
    ys: Seq<AircraftView>,
    horizon_s: Real,
    c: ConflictView,
)
    requires
        is_symmetric(f),
        is_extended(xs, extra, ys),
        conflicts(f, xs, horizon_s).contains(c),
    ensures
        conflicts(f, ys, horizon_s).contains(c) || conflicts(f, ys, horizon_s).contains(swapped(c)),
{
    reports_are_sound(f, xs, horizon_s, c);
    let (i, j, dt_s) = choose|i: int, j: int, dt_s: Real| #[trigger]
        in_conflict(f, xs, horizon_s, i, j, dt_s) && c == encounter(f, xs[i], xs[j], dt_s);
    the_earliest_is_reported(f, xs, horizon_s, i, j, c);
    let all = xs + extra;
    assert(all[i] == xs[i] && all[j] == xs[j]);
    let (p, q) = lemma_two_places(all, ys, i, j);
    lemma_alone(xs, extra, ys, i, p);
    lemma_alone(xs, extra, ys, j, q);
    if p < q {
        the_earliest_is_reported(f, ys, horizon_s, p, q, c);
    } else {
        conflicts_are_mutual(f, xs[i], xs[j], Real::of(0));
        conflicts_are_mutual(f, xs[i], xs[j], horizon_s);
        the_earliest_is_reported(f, ys, horizon_s, q, p, swapped(c));
    }
}

/// The place of a report of `xs` among those of `ys`.
spec fn place_in(
    f: spec_fn(Formula) -> Real,
    xs: Seq<AircraftView>,
    ys: Seq<AircraftView>,
    horizon_s: Real,
    k: int,
) -> int {
    choose|m: int|
        0 <= m < conflicts(f, ys, horizon_s).len() && {
            let c = conflicts(f, xs, horizon_s)[k];
            let d = #[trigger] conflicts(f, ys, horizon_s)[m];
            d == c || d == swapped(c)
        }
}

/// More aircraft give no fewer reports.
pub proof fn more_aircraft_give_no_fewer_reports(
    f: spec_fn(Formula) -> Real,
    xs: Seq<AircraftView>,
    extra: Seq<AircraftView>,
    ys: Seq<AircraftView>,
    horizon_s: Real,
)
    requires
        is_symmetric(f),
        is_extended(xs, extra, ys),
    ensures
        conflicts(f, xs, horizon_s).len() <= conflicts(f, ys, horizon_s).len(),
{
    let few = conflicts(f, xs, horizon_s);
    let many = conflicts(f, ys, horizon_s);
    let to = |k: int| place_in(f, xs, ys, horizon_s, k);
    assert forall|k: int| 0 <= k < few.len() implies 0 <= #[trigger] to(k) < many.len() && (
    many[to(k)] == few[k] || many[to(k)] == swapped(few[k])) by {
        assert(few.contains(few[k]));
        more_aircraft_keep_every_report(f, xs, extra, ys, horizon_s, few[k]);
        let d = if many.contains(few[k]) {
            few[k]
        } else {
            swapped(few[k])
        };
        let m = choose|m: int| 0 <= m < many.len() && many[m] == d;
        assert(conflicts(f, ys, horizon_s)[m] == d);
    }
    reports_are_ordered_and_distinct(f, xs, horizon_s);
    assert forall|k: int, l: int| 0 <= k < l < few.len() implies #[trigger] to(k) != #[trigger] to(
        l,
    ) by {
        assert(!same_pair(few[k], few[l]));
        if to(k) == to(l) {
            assert(few.contains(few[k]) && few.contains(few[l]));
            reports_are_sound(f, xs, horizon_s, few[k]);
            reports_are_sound(f, xs, horizon_s, few[l]);
            let (a, b, s) = choose|a: int, b: int, s: Real| #[trigger]
                in_conflict(f, xs, horizon_s, a, b, s) && few[k] == encounter(f, xs[a], xs[b], s);
            let (c, d, t) = choose|c: int, d: int, t: Real| #[trigger]
                in_conflict(f, xs, horizon_s, c, d, t) && few[l] == encounter(f, xs[c], xs[d], t);
            assert(xs[a].icao24 == xs[d].icao24);
            assert(xs[b].icao24 == xs[c].icao24);
        }
    }
    lemma_pigeonhole(few.len(), many.len(), to);
}

/// Another order of the aircraft gives as many reports.
pub proof fn order_keeps_the_number_of_reports(
    f: spec_fn(Formula) -> Real,
    xs: Seq<AircraftView>,
    ys: Seq<AircraftView>,
    horizon_s: Real,
)
    requires
        is_symmetric(f),
        forall|i: int, j: int| 0 <= i < j < xs.len() ==> xs[i].icao24 != xs[j].icao24,
        ys.to_multiset() == xs.to_multiset(),
    ensures
        conflicts(f, xs, horizon_s).len() == conflicts(f, ys, horizon_s).len(),
{
    let none = Seq::<AircraftView>::empty();
    assert(xs + none =~= xs);
    assert(ys + none =~= ys);
    more_aircraft_give_no_fewer_reports(f, xs, none, ys, horizon_s);
    assert forall|i: int, j: int| 0 <= i < j < ys.len() implies ys[i].icao24 != ys[j].icao24 by {
        let (a, b) = lemma_two_places(ys, xs, i, j);
        if a < b {
            assert(xs[a].icao24 != xs[b].icao24);
        } else {
            assert(xs[b].icao24 != xs[a].icao24);
        }
    }
    more_aircraft_give_no_fewer_reports(f, ys, none, xs, horizon_s);
}

/// Now, or for a moment that does not lie ahead, two aircraft are in conflict exactly where
/// both are airborne, less than 3 NM lie between their places and less than 1000 ft between
/// their altitudes. The conflict tells these distances, the middle and the names.
pub proof fn conflict_of_present_places(
    f: spec_fn(Formula) -> Real,
    a: AircraftView,
    b: AircraftView,
    dt_s: Real,
    nm: Real,
    ft: Real,
)
    requires
        !dt_s.above(0),
        nm == f(
            Formula::NauticalMiles {
                metres: f(
                    Formula::Distance {
                        lat1: a.latitude,
                        lng1: a.longitude,
                        lat2: b.latitude,
                        lng2: b.longitude,
                    },
                ),
            },
        ),
        ft == f(
            Formula::VerticalFeet {
                a_m: match a.altitude_m {
                    Some(x) => x,
                    None => Real { bits: 0 },
                },
                b_m: match b.altitude_m {
                    Some(x) => x,
                    None => Real { bits: 0 },
                },
            },
        ),
    ensures
        too_close(f, a, b, dt_s) <==> !a.on_ground && !b.on_ground && nm.below(3) && ft.below(1000),
        encounter(f, a, b, dt_s) == (ConflictView {
            a_icao: a.icao24,
            b_icao: b.icao24,
            a_callsign: a.callsign,
            b_callsign: b.callsign,
            horizontal_nm: nm,
            vertical_ft: ft,
            seconds_from_now: dt_s,
            at_lng: f(Formula::Midpoint { a: a.longitude, b: b.longitude }),
            at_lat: f(Formula::Midpoint { a: a.latitude, b: b.latitude }),
        }),
{
    crate::measure::lemma_zero_is_small(1);
}

/// For a moment ahead, two aircraft are in conflict exactly where both are airborne and less
/// than 3 NM lie between the places that their headings and speeds take them to, longitude
/// and latitude, and less than 1000 ft between their altitudes. The conflict tells these
/// distances, the middle of these places and the names.
pub proof fn conflict_of_reckoned_places(
    f: spec_fn(Formula) -> Real,
    a: AircraftView,
    b: AircraftView,
    dt_s: Real,
    a_heading: Real,
    a_speed: Real,
    b_heading: Real,
    b_speed: Real,
    a_place: (Real, Real),
    b_place: (Real, Real),
    nm: Real,
    ft: Real,
)
    requires
        dt_s.above(0),
        a_heading == (match a.heading {
            Some(x) => x,
            None => Real { bits: 0 },
        }),
        a_speed == (match a.velocity_ms {
            Some(x) => x,
            None => Real { bits: 0 },
        }),
        b_heading == (match b.heading {
            Some(x) => x,
            None => Real { bits: 0 },
        }),
        b_speed == (match b.velocity_ms {
            Some(x) => x,
            None => Real { bits: 0 },
        }),
        a_place == (
            f(
                Formula::ReckonedLng {
                    lng: a.longitude,
                    lat: a.latitude,
                    heading_deg: a_heading,
                    speed_ms: a_speed,
                    dt_s,
                },
            ),
            f(
                Formula::ReckonedLat {
                    lng: a.longitude,
                    lat: a.latitude,
                    heading_deg: a_heading,
                    speed_ms: a_speed,
                    dt_s,
                },
            ),
        ),
        b_place == (
            f(
                Formula::ReckonedLng {
                    lng: b.longitude,
                    lat: b.latitude,
                    heading_deg: b_heading,
                    speed_ms: b_speed,
                    dt_s,
                },
            ),
            f(
                Formula::ReckonedLat {
                    lng: b.longitude,
                    lat: b.latitude,
                    heading_deg: b_heading,
                    speed_ms: b_speed,
                    dt_s,
                },
            ),
        ),
        nm == f(
            Formula::NauticalMiles {
                metres: f(
                    Formula::Distance {
                        lat1: a_place.1,
                        lng1: a_place.0,
                        lat2: b_place.1,
                        lng2: b_place.0,
                    },
                ),
            },
        ),
        ft == f(
            Formula::VerticalFeet {
                a_m: match a.altitude_m {
                    Some(x) => x,
                    None => Real { bits: 0 },
                },
                b_m: match b.altitude_m {
                    Some(x) => x,
                    None => Real { bits: 0 },
                },
            },
        ),
    ensures
        too_close(f, a, b, dt_s) <==> !a.on_ground && !b.on_ground && nm.below(3) && ft.below(1000),
        encounter(f, a, b, dt_s) == (ConflictView {
            a_icao: a.icao24,
            b_icao: b.icao24,
            a_callsign: a.callsign,
            b_callsign: b.callsign,
            horizontal_nm: nm,
            vertical_ft: ft,
            seconds_from_now: dt_s,
            at_lng: f(Formula::Midpoint { a: a_place.0, b: b_place.0 }),
            at_lat: f(Formula::Midpoint { a: a_place.1, b: b_place.1 }),
        }),
{
    crate::measure::lemma_zero_is_small(1);
}

/// Two airborne aircraft of a list, whatever else is in it, that are closer than 3 NM and
/// 1000 ft now are reported. Where no other aircraft has their addresses and the horizon
/// does not lie in the past, they are reported as of now and not otherwise.
pub proof fn aircraft_that_are_close_now_are_reported(
    f: spec_fn(Formula) -> Real,
    s: Seq<AircraftView>,
    horizon_s: Real,
    i: int,
    j: int,
)
    requires
        0 <= i < j < s.len(),
        !s[i].on_ground,
        !s[j].on_ground,
        f(
            Formula::NauticalMiles {
                metres: f(
                    Formula::Distance {
                        lat1: s[i].latitude,
                        lng1: s[i].longitude,
                        lat2: s[j].latitude,
                        lng2: s[j].longitude,
                    },
                ),
            },
        ).below(3),
        f(
            Formula::VerticalFeet {
                a_m: match s[i].altitude_m {
                    Some(x) => x,
                    None => Real { bits: 0 },
                },
                b_m: match s[j].altitude_m {
                    Some(x) => x,
                    None => Real { bits: 0 },
                },
            },
        ).below(1000),
    ensures
        exists|k: int|
            0 <= k < conflicts(f, s, horizon_s).len() && (#[trigger] conflicts(
                f,
                s,
                horizon_s,
            )[k]).a_icao == s[i].icao24 && conflicts(f, s, horizon_s)[k].b_icao == s[j].icao24,
        !horizon_s.below(0) && (forall|k: int|
            0 <= k < s.len() && k != i && k != j ==> (#[trigger] s[k]).icao24 != s[i].icao24
                && s[k].icao24 != s[j].icao24) && s[i].icao24 != s[j].icao24 ==> forall|k: int|
            0 <= k < conflicts(f, s, horizon_s).len() && (#[trigger] conflicts(
                f,
                s,
                horizon_s,
            )[k]).a_icao == s[i].icao24 && conflicts(f, s, horizon_s)[k].b_icao == s[j].icao24
                ==> conflicts(f, s, horizon_s)[k].seconds_from_now == (Real { bits: 0 }),
{
    crate::measure::lemma_zero_is_small(1);
    let zero = Real::of(0);
    let a = s[i];
    let b = s[j];
    let nm = f(
        Formula::NauticalMiles {
            metres: f(
                Formula::Distance {
                    lat1: a.latitude,
                    lng1: a.longitude,
                    lat2: b.latitude,
                    lng2: b.longitude,
                },
            ),
        },
    );
    let ft = f(
        Formula::VerticalFeet {
            a_m: match a.altitude_m {
                Some(x) => x,
                None => Real { bits: 0 },
            },
            b_m: match b.altitude_m {
                Some(x) => x,
                None => Real { bits: 0 },
            },
        },
    );
    conflict_of_present_places(f, a, b, zero, nm, ft);
    assert(in_conflict(f, s, horizon_s, i, j, zero));
    every_conflict_is_reported(f, s, horizon_s, i, j, zero);
    let out = conflicts(f, s, horizon_s);
    if !horizon_s.below(0) && (forall|k: int|
        0 <= k < s.len() && k != i && k != j ==> (#[trigger] s[k]).icao24 != s[i].icao24
            && s[k].icao24 != s[j].icao24) && s[i].icao24 != s[j].icao24 {
        assert(is_alone(s, i));
        assert(is_alone(s, j));
        assert(horizon_s.whole_i64() >= 0) by {
            if !horizon_s.is_nan() {
                crate::measure::whole_part_is_cut_off(horizon_s);
            }
        }
        assert forall|k: int|
            0 <= k < out.len() && (#[trigger] out[k]).a_icao == a.icao24 && out[k].b_icao
                == b.icao24 implies out[k].seconds_from_now == zero by {
            assert(out.contains(out[k]));
            the_earliest_is_reported(f, s, horizon_s, i, j, out[k]);
        }
    }
}

/// Two airborne aircraft of a list that will be closer than 3 NM and 1000 ft at the end of a
/// horizon ahead, when each has moved on along its heading, are reported.
pub proof fn aircraft_that_will_be_close_are_reported(
    f: spec_fn(Formula) -> Real,
    s: Seq<AircraftView>,
    horizon_s: Real,
    i: int,
    j: int,
    a_heading: Real,
    a_speed: Real,
    b_heading: Real,
    b_speed: Real,
    a_lng: Real,
    a_lat: Real,
    b_lng: Real,
    b_lat: Real,
)
    requires
        horizon_s.above(0),
        0 <= i < j < s.len(),
        !s[i].on_ground,
        !s[j].on_ground,
        a_heading == (match s[i].heading {
            Some(x) => x,
            None => Real { bits: 0 },
        }),
        a_speed == (match s[i].velocity_ms {
            Some(x) => x,
            None => Real { bits: 0 },
        }),
        b_heading == (match s[j].heading {
            Some(x) => x,
            None => Real { bits: 0 },
        }),
        b_speed == (match s[j].velocity_ms {
            Some(x) => x,
            None => Real { bits: 0 },
        }),
        a_lng == f(
            Formula::ReckonedLng {
                lng: s[i].longitude,
                lat: s[i].latitude,
                heading_deg: a_heading,
                speed_ms: a_speed,
                dt_s: horizon_s,
            },
        ),
        a_lat == f(
            Formula::ReckonedLat {
                lng: s[i].longitude,
                lat: s[i].latitude,
                heading_deg: a_heading,
                speed_ms: a_speed,
                dt_s: horizon_s,
            },
        ),
        b_lng == f(
            Formula::ReckonedLng {
                lng: s[j].longitude,
                lat: s[j].latitude,
                heading_deg: b_heading,
                speed_ms: b_speed,
                dt_s: horizon_s,
            },
        ),
        b_lat == f(
            Formula::ReckonedLat {
                lng: s[j].longitude,
                lat: s[j].latitude,
                heading_deg: b_heading,
                speed_ms: b_speed,
                dt_s: horizon_s,
            },
        ),
        f(
            Formula::NauticalMiles {
                metres: f(
                    Formula::Distance { lat1: a_lat, lng1: a_lng, lat2: b_lat, lng2: b_lng },
                ),
            },
        ).below(3),
        f(
            Formula::VerticalFeet {
                a_m: match s[i].altitude_m {
                    Some(x) => x,
                    None => Real { bits: 0 },
                },
                b_m: match s[j].altitude_m {
                    Some(x) => x,
                    None => Real { bits: 0 },
                },
            },
        ).below(1000),
    ensures
        exists|k: int|
            0 <= k < conflicts(f, s, horizon_s).len() && (#[trigger] conflicts(
                f,
                s,
                horizon_s,
            )[k]).a_icao == s[i].icao24 && conflicts(f, s, horizon_s)[k].b_icao == s[j].icao24,
{
    crate::measure::lemma_zero_is_small(1);
    let nm = f(
        Formula::NauticalMiles {
            metres: f(Formula::Distance { lat1: a_lat, lng1: a_lng, lat2: b_lat, lng2: b_lng }),
        },
    );
    let ft = f(
        Formula::VerticalFeet {
            a_m: match s[i].altitude_m {
                Some(x) => x,
                None => Real { bits: 0 },
            },
            b_m: match s[j].altitude_m {
                Some(x) => x,
                None => Real { bits: 0 },
            },
        },
    );
    conflict_of_reckoned_places(
        f,
        s[i],
        s[j],
        horizon_s,
        a_heading,
        a_speed,
        b_heading,
        b_speed,
        (a_lng, a_lat),
        (b_lng, b_lat),
        nm,
        ft,
    );
    assert(in_conflict(f, s, horizon_s, i, j, horizon_s));
    every_conflict_is_reported(f, s, horizon_s, i, j, horizon_s);
}

/// Every report is about two airborne aircraft, in the order of the list, that are closer
/// than 3 NM and 1000 ft, now or at the end of the horizon.
pub proof fn reports_are_inside_the_minima(
    f: spec_fn(Formula) -> Real,
    s: Seq<AircraftView>,
    horizon_s: Real,
    c: ConflictView,
)
    requires
        conflicts(f, s, horizon_s).contains(c),
    ensures
        c.horizontal_nm.below(3),
        c.vertical_ft.below(1000),
        c.seconds_from_now == (Real { bits: 0 }) || c.seconds_from_now == horizon_s,
        exists|i: int, j: int|
            #![trigger s[i], s[j]]
            {
                &&& 0 <= i < j < s.len()
                &&& !s[i].on_ground
                &&& !s[j].on_ground
                &&& c.a_icao == s[i].icao24
                &&& c.b_icao == s[j].icao24
                &&& c.a_callsign == s[i].callsign
                &&& c.b_callsign == s[j].callsign
                &&& c == encounter(f, s[i], s[j], c.seconds_from_now)
            },
{
    crate::measure::lemma_zero_is_small(1);
    reports_are_sound(f, s, horizon_s, c);
    let (i, j, dt_s) = choose|i: int, j: int, dt_s: Real| #[trigger]
        in_conflict(f, s, horizon_s, i, j, dt_s) && c == encounter(f, s[i], s[j], dt_s);
    assert(s[i].icao24 == c.a_icao && s[j].icao24 == c.b_icao);
}

/// The reports are ordered by the address of the first aircraft and then of the second, and
/// no two are about the same two aircraft in the same roles.
pub proof fn reports_are_ordered_by_address(
    f: spec_fn(Formula) -> Real,
    s: Seq<AircraftView>,
    horizon_s: Real,
    i: int,
    j: int,
)
    requires
        0 <= i < j < conflicts(f, s, horizon_s).len(),
    ensures
        ({
            let x = conflicts(f, s, horizon_s)[i];
            let y = conflicts(f, s, horizon_s)[j];
            &&& text_le(x.a_icao, y.a_icao)
            &&& x.a_icao == y.a_icao ==> text_le(x.b_icao, y.b_icao) && x.b_icao != y.b_icao
        }),
{
    reports_are_ordered_and_distinct(f, s, horizon_s);
    let x = conflicts(f, s, horizon_s)[i];
    let y = conflicts(f, s, horizon_s)[j];
    assert(conflict_le(x, y) && !same_pair(x, y));
    lemma_text_le_total(x.a_icao, x.a_icao);
}

} // verus!
