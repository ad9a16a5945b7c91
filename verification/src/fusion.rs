//! One list of aircraft out of two feeds.
//!
//! OpenSky names the country of an aircraft, adsb.lol knows better where it is. An
//! aircraft that both report has the position of adsb.lol and, where OpenSky gave them,
//! the callsign and the country of OpenSky. No aircraft of either feed is left out.

use crate::types::{contents, RawAircraft, RawView};
use vstd::prelude::*;
use vstd::string::*;

verus! {

/// The aircraft with the address `k` stands at place `i`.
pub open spec fn stands_at(s: Seq<RawView>, k: Seq<char>, i: int) -> bool {
    0 <= i < s.len() && s[i].icao24 == k
}

/// An aircraft with the address `k` stands in the list.
pub open spec fn is_listed(s: Seq<RawView>, k: Seq<char>) -> bool {
    exists|i: int| stands_at(s, k, i)
}

/// Where the aircraft with the address `k` stands.
pub open spec fn place_of(s: Seq<RawView>, k: Seq<char>) -> int {
    choose|i: int| stands_at(s, k, i)
}

/// The aircraft with the address `k`.
pub open spec fn find(s: Seq<RawView>, k: Seq<char>) -> Option<RawView> {
    if is_listed(s, k) {
        Some(s[place_of(s, k)])
    } else {
        None
    }
}

/// No address occurs twice.
pub open spec fn is_distinct(s: Seq<RawView>) -> bool {
    forall|i: int, j: int| 0 <= i < j < s.len() ==> s[i].icao24 != s[j].icao24
}

/// `r` in place of the aircraft with its address, or at the end.
pub open spec fn replaced(s: Seq<RawView>, r: RawView) -> Seq<RawView> {
    if is_listed(s, r.icao24) {
        s.update(place_of(s, r.icao24), r)
    } else {
        s.push(r)
    }
}

/// An aircraft with the fresher position of another report about it, and with that
/// report's callsign and country where it had none.
pub open spec fn refreshed(existing: RawView, r: RawView) -> RawView {
    RawView {
        icao24: existing.icao24,
        callsign: if existing.callsign is None {
            r.callsign
        } else {
            existing.callsign
        },
        origin_country: if existing.origin_country.len() == 0 {
            r.origin_country
        } else {
            existing.origin_country
        },
        longitude: r.longitude,
        latitude: r.latitude,
        altitude_m: r.altitude_m,
        velocity_ms: r.velocity_ms,
        heading: r.heading,
        on_ground: r.on_ground,
    }
}

/// `r` as a fresher report on the aircraft with its address, or at the end.
pub open spec fn overlaid(s: Seq<RawView>, r: RawView) -> Seq<RawView> {
    if is_listed(s, r.icao24) {
        s.update(place_of(s, r.icao24), refreshed(s[place_of(s, r.icao24)], r))
    } else {
        s.push(r)
    }
}

/// The reports one after the other; a later one on the same aircraft replaces it.
pub open spec fn gathered(reports: Seq<RawView>) -> Seq<RawView>
    decreases reports.len(),
{
    if reports.len() == 0 {
        Seq::empty()
    } else {
        replaced(gathered(reports.drop_last()), reports.last())
    }
}

/// The reports laid over a list, one after the other.
pub open spec fn overlaid_all(base: Seq<RawView>, reports: Seq<RawView>) -> Seq<RawView>
    decreases reports.len(),
{
    if reports.len() == 0 {
        base
    } else {
        overlaid(overlaid_all(base, reports.drop_last()), reports.last())
    }
}

/// The list out of both feeds.
pub open spec fn fused(opensky: Seq<RawView>, adsb: Seq<RawView>) -> Seq<RawView> {
    overlaid_all(gathered(opensky), adsb)
}

/// What is made of the reports of one feed on the aircraft with the address `k`: the last.
pub open spec fn last_on(reports: Seq<RawView>, k: Seq<char>) -> Option<RawView>
    decreases reports.len(),
{
    if reports.len() == 0 {
        None
    } else if reports.last().icao24 == k {
        Some(reports.last())
    } else {
        last_on(reports.drop_last(), k)
    }
}

/// What is made of an aircraft by the fresher reports on it.
pub open spec fn refreshed_by(
    base: Option<RawView>,
    reports: Seq<RawView>,
    k: Seq<char>,
) -> Option<RawView>
    decreases reports.len(),
{
    if reports.len() == 0 {
        base
    } else {
        let before = refreshed_by(base, reports.drop_last(), k);
        if reports.last().icao24 != k {
            before
        } else {
            match before {
                Some(existing) => Some(refreshed(existing, reports.last())),
                None => Some(reports.last()),
            }
        }
    }
}

proof fn lemma_place_unique(s: Seq<RawView>, k: Seq<char>, i: int)
    requires
        is_distinct(s),
        stands_at(s, k, i),
    ensures
        is_listed(s, k),
        place_of(s, k) == i,
{
    let p = place_of(s, k);
    assert(stands_at(s, k, p));
    if p < i {
        assert(s[p].icao24 != s[i].icao24);
    } else if i < p {
        assert(s[i].icao24 != s[p].icao24);
    }
}

/// Changing one entry without its address changes nothing else.
proof fn lemma_update(s: Seq<RawView>, i: int, r: RawView)
    requires
        is_distinct(s),
        stands_at(s, r.icao24, i),
    ensures
        is_distinct(s.update(i, r)),
        forall|k: Seq<char>| #[trigger]
            find(s.update(i, r), k) == (if k == r.icao24 {
                Some(r)
            } else {
                find(s, k)
            }),
{
    let t = s.update(i, r);
    assert(is_distinct(t));
    assert forall|k: Seq<char>| #[trigger] find(t, k) == (if k == r.icao24 {
        Some(r)
    } else {
        find(s, k)
    }) by {
        if k == r.icao24 {
            lemma_place_unique(t, k, i);
        } else if is_listed(s, k) {
            let p = place_of(s, k);
            assert(stands_at(s, k, p));
            assert(stands_at(t, k, p));
            lemma_place_unique(t, k, p);
        } else if is_listed(t, k) {
            assert(stands_at(s, k, place_of(t, k)));
        }
    }
}

/// A new entry changes nothing else.
proof fn lemma_push(s: Seq<RawView>, r: RawView)
    requires
        is_distinct(s),
        !is_listed(s, r.icao24),
    ensures
        is_distinct(s.push(r)),
        forall|k: Seq<char>| #[trigger]
            find(s.push(r), k) == (if k == r.icao24 {
                Some(r)
            } else {
                find(s, k)
            }),
{
    let t = s.push(r);
    assert(is_distinct(t)) by {
        assert forall|i: int, j: int| 0 <= i < j < t.len() implies t[i].icao24 != t[j].icao24 by {
            if j == s.len() && t[i].icao24 == t[j].icao24 {
                assert(stands_at(s, r.icao24, i));
            }
        }
    }
    assert forall|k: Seq<char>| #[trigger] find(t, k) == (if k == r.icao24 {
        Some(r)
    } else {
        find(s, k)
    }) by {
        if k == r.icao24 {
            assert(stands_at(t, k, s.len() as int));
            lemma_place_unique(t, k, s.len() as int);
        } else if is_listed(s, k) {
            let p = place_of(s, k);
            assert(stands_at(s, k, p));
            assert(stands_at(t, k, p));
            lemma_place_unique(t, k, p);
        } else if is_listed(t, k) {
            assert(stands_at(s, k, place_of(t, k)));
        }
    }
}

proof fn lemma_gathered(reports: Seq<RawView>)
    ensures
        is_distinct(gathered(reports)),
        forall|k: Seq<char>| #[trigger] find(gathered(reports), k) == last_on(reports, k),
    decreases reports.len(),
{
    if reports.len() > 0 {
        let s = gathered(reports.drop_last());
        let r = reports.last();
        lemma_gathered(reports.drop_last());
        if is_listed(s, r.icao24) {
            assert(stands_at(s, r.icao24, place_of(s, r.icao24)));
            lemma_update(s, place_of(s, r.icao24), r);
        } else {
            lemma_push(s, r);
        }
    }
}

proof fn lemma_overlaid_all(base: Seq<RawView>, reports: Seq<RawView>)
    requires
        is_distinct(base),
    ensures
        is_distinct(overlaid_all(base, reports)),
        forall|k: Seq<char>| #[trigger]
            find(overlaid_all(base, reports), k) == refreshed_by(find(base, k), reports, k),
    decreases reports.len(),
{
    if reports.len() > 0 {
        let s = overlaid_all(base, reports.drop_last());
        let r = reports.last();
        lemma_overlaid_all(base, reports.drop_last());
        if is_listed(s, r.icao24) {
            let p = place_of(s, r.icao24);
            assert(stands_at(s, r.icao24, p));
            assert(find(s, r.icao24) == Some(s[p]));
            lemma_update(s, p, refreshed(s[p], r));
        } else {
            assert(find(s, r.icao24) is None);
            lemma_push(s, r);
        }
    }
}

/// No address occurs twice in the list, and what it says of an aircraft is the last
/// report of OpenSky refreshed by the reports of adsb.lol, in their order.
pub proof fn fusion_by_address(opensky: Seq<RawView>, adsb: Seq<RawView>, k: Seq<char>)
    ensures
        is_distinct(fused(opensky, adsb)),
        find(fused(opensky, adsb), k) == refreshed_by(last_on(opensky, k), adsb, k),
{
    lemma_gathered(opensky);
    lemma_overlaid_all(gathered(opensky), adsb);
    assert(find(gathered(opensky), k) == last_on(opensky, k));
}

proof fn lemma_last_on(reports: Seq<RawView>, k: Seq<char>)
    ensures
        last_on(reports, k) is Some <==> is_listed(reports, k),
    decreases reports.len(),
{
    if reports.len() > 0 {
        let head = reports.drop_last();
        lemma_last_on(head, k);
        if reports.last().icao24 == k {
            assert(stands_at(reports, k, reports.len() - 1));
        } else if is_listed(head, k) {
            assert(stands_at(reports, k, place_of(head, k))) by {
                assert(stands_at(head, k, place_of(head, k)));
            }
        } else if is_listed(reports, k) {
            let i = place_of(reports, k);
            assert(stands_at(reports, k, i));
            assert(stands_at(head, k, i));
        }
    }
}

/// The list holds the aircraft that one of the feeds reports, and no others.
pub proof fn fusion_is_the_union(opensky: Seq<RawView>, adsb: Seq<RawView>, k: Seq<char>)
    ensures
        is_listed(fused(opensky, adsb), k) <==> is_listed(opensky, k) || is_listed(adsb, k),
{
    fusion_by_address(opensky, adsb, k);
    lemma_last_on(opensky, k);
    lemma_last_on(adsb, k);
    lemma_refreshed_by(last_on(opensky, k), adsb, k);
}

proof fn lemma_refreshed_by(base: Option<RawView>, reports: Seq<RawView>, k: Seq<char>)
    ensures
        refreshed_by(base, reports, k) is Some <==> base is Some || last_on(reports, k) is Some,
        last_on(reports, k) is Some ==> same_position(
            refreshed_by(base, reports, k)->0,
            last_on(reports, k)->0,
        ),
        base is Some && base->0.origin_country.len() > 0 ==> refreshed_by(
            base,
            reports,
            k,
        )->0.origin_country == base->0.origin_country,
        base is Some && base->0.callsign is Some ==> refreshed_by(base, reports, k)->0.callsign
            == base->0.callsign,
        last_on(reports, k) is None ==> refreshed_by(base, reports, k) == base,
    decreases reports.len(),
{
    if reports.len() > 0 {
        lemma_refreshed_by(base, reports.drop_last(), k);
    }
}

/// Both put the aircraft at the same place, with the same motion.
pub open spec fn same_position(a: RawView, b: RawView) -> bool {
    &&& a.longitude == b.longitude
    &&& a.latitude == b.latitude
    &&& a.altitude_m == b.altitude_m
    &&& a.velocity_ms == b.velocity_ms
    &&& a.heading == b.heading
    &&& a.on_ground == b.on_ground
}

/// An aircraft that adsb.lol reports has the position of its last report there.
pub proof fn adsb_position_wins(opensky: Seq<RawView>, adsb: Seq<RawView>, k: Seq<char>)
    requires
        is_listed(adsb, k),
    ensures
        last_on(adsb, k) is Some,
        find(fused(opensky, adsb), k) is Some,
        same_position(find(fused(opensky, adsb), k)->0, last_on(adsb, k)->0),
{
    fusion_by_address(opensky, adsb, k);
    lemma_last_on(adsb, k);
    lemma_refreshed_by(last_on(opensky, k), adsb, k);
}

/// The country and the callsign that OpenSky gives are kept.
pub proof fn opensky_attribution_is_kept(opensky: Seq<RawView>, adsb: Seq<RawView>, k: Seq<char>)
    requires
        is_listed(opensky, k),
    ensures
        last_on(opensky, k) is Some,
        find(fused(opensky, adsb), k) is Some,
        last_on(opensky, k)->0.origin_country.len() > 0 ==> find(
            fused(opensky, adsb),
            k,
        )->0.origin_country == last_on(opensky, k)->0.origin_country,
        last_on(opensky, k)->0.callsign is Some ==> find(fused(opensky, adsb), k)->0.callsign
            == last_on(opensky, k)->0.callsign,
{
    fusion_by_address(opensky, adsb, k);
    lemma_last_on(opensky, k);
    lemma_refreshed_by(last_on(opensky, k), adsb, k);
}

/// Where the aircraft with an address stands.
fn locate(list: &Vec<RawAircraft>, icao24: &String) -> (r: Option<usize>)
    requires
        is_distinct(contents(list@)),
    ensures
        match r {
            Some(i) => {
                &&& i < list@.len()
                &&& is_listed(contents(list@), icao24@)
                &&& place_of(contents(list@), icao24@) == i
            },
            None => !is_listed(contents(list@), icao24@),
        },
{
    let n: usize = list.len();
    let ghost s = contents(list@);
    let mut i: usize = 0;
    while i < n
        invariant
            n == list@.len(),
            i <= n,
            s == contents(list@),
            is_distinct(s),
            forall|j: int| 0 <= j < i ==> (#[trigger] s[j]).icao24 != icao24@,
        decreases n - i,
    {
        if list[i].icao24 == *icao24 {
            proof {
                assert(stands_at(s, icao24@, i as int));
                lemma_place_unique(s, icao24@, i as int);
            }
            return Some(i);
        }
        assert(s[i as int] == list@[i as int]@);
        i = i + 1;
    }
    assert(!is_listed(s, icao24@)) by {
        if is_listed(s, icao24@) {
            assert(stands_at(s, icao24@, place_of(s, icao24@)));
        }
    }
    None
}

/// An aircraft with the fresher position of another report about it.
fn refresh(existing: &RawAircraft, r: &RawAircraft) -> (out: RawAircraft)
    ensures
        out@ == refreshed(existing@, r@),
{
    RawAircraft {
        icao24: existing.icao24.clone(),
        callsign: match &existing.callsign {
            Some(c) => Some(c.clone()),
            None => r.callsign.clone(),
        },
        origin_country: if existing.origin_country.as_str().is_empty() {
            r.origin_country.clone()
        } else {
            existing.origin_country.clone()
        },
        longitude: r.longitude,
        latitude: r.latitude,
        altitude_m: r.altitude_m,
        velocity_ms: r.velocity_ms,
        heading: r.heading,
        on_ground: r.on_ground,
    }
}

/// The list out of both feeds.
pub fn fuse(opensky: &[RawAircraft], adsb: &[RawAircraft]) -> (r: Vec<RawAircraft>)
    ensures
        contents(r@) == fused(contents(opensky@), contents(adsb@)),
{
    let mut out: Vec<RawAircraft> = Vec::new();
    let ghost first = contents(opensky@);
    let ghost second = contents(adsb@);
    let n: usize = opensky.len();
    let mut i: usize = 0;
    assert(contents(out@) =~= Seq::<RawView>::empty());
    assert(first.take(0) =~= Seq::<RawView>::empty());
    while i < n
        invariant
            n == opensky@.len(),
            i <= n,
            first == contents(opensky@),
            contents(out@) == gathered(first.take(i as int)),
        decreases n - i,
    {
        let r = &opensky[i];
        let ghost before = contents(out@);
        proof {
            assert(first.take(i + 1).drop_last() =~= first.take(i as int));
            assert(first.take(i + 1).last() == r@);
            lemma_gathered(first.take(i as int));
        }
        match locate(&out, &r.icao24) {
            Some(at) => {
                out.set(at, r.clone());
                assert(contents(out@) =~= before.update(at as int, r@));
            },
            None => {
                out.push(r.clone());
                assert(contents(out@) =~= before.push(r@));
            },
        }
        i = i + 1;
    }
    assert(first.take(n as int) =~= first);
    let ghost base = contents(out@);
    let m: usize = adsb.len();
    let mut j: usize = 0;
    proof {
        lemma_gathered(first);
        assert(second.take(0) =~= Seq::<RawView>::empty());
    }
    while j < m
        invariant
            m == adsb@.len(),
            j <= m,
            second == contents(adsb@),
            is_distinct(base),
            contents(out@) == overlaid_all(base, second.take(j as int)),
        decreases m - j,
    {
        let r = &adsb[j];
        let ghost before = contents(out@);
        proof {
            assert(second.take(j + 1).drop_last() =~= second.take(j as int));
            assert(second.take(j + 1).last() == r@);
            lemma_overlaid_all(base, second.take(j as int));
        }
        match locate(&out, &r.icao24) {
            Some(at) => {
                let fresh = refresh(&out[at], r);
                assert(before[at as int] == out@[at as int]@);
                out.set(at, fresh);
                assert(contents(out@) =~= before.update(at as int, fresh@));
            },
            None => {
                out.push(r.clone());
                assert(contents(out@) =~= before.push(r@));
            },
        }
        j = j + 1;
    }
    assert(second.take(m as int) =~= second);
    out
}

/// The last report on an aircraft, by its place.
proof fn lemma_last_place(reports: Seq<RawView>, k: Seq<char>, q: int)
    requires
        0 <= q < reports.len(),
        reports[q].icao24 == k,
        forall|x: int| q < x < reports.len() ==> (#[trigger] reports[x]).icao24 != k,
    ensures
        last_on(reports, k) == Some(reports[q]),
    decreases reports.len(),
{
    let head = reports.drop_last();
    if q < head.len() {
        assert(reports[reports.len() - 1].icao24 != k);
        assert forall|x: int| q < x < head.len() implies (#[trigger] head[x]).icao24 != k by {
            assert(head[x] == reports[x]);
        }
        assert(head[q] == reports[q]);
        lemma_last_place(head, k, q);
    }
}

proof fn lemma_last_none(reports: Seq<RawView>, k: Seq<char>)
    requires
        forall|x: int| 0 <= x < reports.len() ==> (#[trigger] reports[x]).icao24 != k,
    ensures
        last_on(reports, k) is None,
    decreases reports.len(),
{
    if reports.len() > 0 {
        let head = reports.drop_last();
        assert(reports[reports.len() - 1].icao24 != k);
        assert forall|x: int| 0 <= x < head.len() implies (#[trigger] head[x]).icao24 != k by {
            assert(head[x] == reports[x]);
        }
        lemma_last_none(head, k);
    }
}

/// What the fused list says of an aircraft stands at its only place.
proof fn lemma_fused_at(opensky: Seq<RawView>, adsb: Seq<RawView>, i: int)
    requires
        0 <= i < fused(opensky, adsb).len(),
    ensures
        refreshed_by(
            last_on(opensky, fused(opensky, adsb)[i].icao24),
            adsb,
            fused(opensky, adsb)[i].icao24,
        ) == Some(fused(opensky, adsb)[i]),
{
    let s = fused(opensky, adsb);
    fusion_by_address(opensky, adsb, s[i].icao24);
    assert(stands_at(s, s[i].icao24, i));
    lemma_place_unique(s, s[i].icao24, i);
}

/// Nothing is filled in where no report has a callsign, or a country.
proof fn lemma_nothing_filled_in(base: Option<RawView>, reports: Seq<RawView>, k: Seq<char>)
    ensures
        (base is Some ==> base->0.callsign is None) && (forall|x: int|
            0 <= x < reports.len() && (#[trigger] reports[x]).icao24 == k
                ==> reports[x].callsign is None) ==> (refreshed_by(base, reports, k) is Some
            ==> refreshed_by(base, reports, k)->0.callsign is None),
        (base is Some ==> base->0.origin_country.len() == 0) && (forall|x: int|
            0 <= x < reports.len() && (#[trigger] reports[x]).icao24 == k
                ==> reports[x].origin_country.len() == 0) ==> (refreshed_by(
            base,
            reports,
            k,
        ) is Some ==> refreshed_by(base, reports, k)->0.origin_country.len() == 0),
    decreases reports.len(),
{
    if reports.len() > 0 {
        let head = reports.drop_last();
        lemma_nothing_filled_in(base, head, k);
        assert forall|x: int| 0 <= x < head.len() implies #[trigger] head[x] == reports[x] by {}
        assert(reports[reports.len() - 1] == reports.last());
    }
}

/// The first callsign among the reports fills in a missing one.
proof fn lemma_callsign_filled_in(
    base: Option<RawView>,
    reports: Seq<RawView>,
    k: Seq<char>,
    p: int,
)
    requires
        base is Some ==> base->0.callsign is None,
        0 <= p < reports.len(),
        reports[p].icao24 == k,
        reports[p].callsign is Some,
        forall|x: int|
            0 <= x < p && (#[trigger] reports[x]).icao24 == k ==> reports[x].callsign is None,
    ensures
        refreshed_by(base, reports, k) is Some,
        refreshed_by(base, reports, k)->0.callsign == reports[p].callsign,
    decreases reports.len(),
{
    let head = reports.drop_last();
    assert forall|x: int| 0 <= x < head.len() implies #[trigger] head[x] == reports[x] by {}
    if p < head.len() {
        assert(head[p] == reports[p]);
        lemma_callsign_filled_in(base, head, k, p);
    } else {
        lemma_nothing_filled_in(base, head, k);
    }
}

/// The first country among the reports fills in a missing one.
proof fn lemma_country_filled_in(
    base: Option<RawView>,
    reports: Seq<RawView>,
    k: Seq<char>,
    p: int,
)
    requires
        base is Some ==> base->0.origin_country.len() == 0,
        0 <= p < reports.len(),
        reports[p].icao24 == k,
        reports[p].origin_country.len() > 0,
        forall|x: int|
            0 <= x < p && (#[trigger] reports[x]).icao24 == k ==> reports[x].origin_country.len()
                == 0,
    ensures
        refreshed_by(base, reports, k) is Some,
        refreshed_by(base, reports, k)->0.origin_country == reports[p].origin_country,
    decreases reports.len(),
{
    let head = reports.drop_last();
    assert forall|x: int| 0 <= x < head.len() implies #[trigger] head[x] == reports[x] by {}
    if p < head.len() {
        assert(head[p] == reports[p]);
        lemma_country_filled_in(base, head, k, p);
    } else {
        lemma_nothing_filled_in(base, head, k);
    }
}

/// The base that the last OpenSky report makes has no callsign, or no country, where that
/// report has none.
proof fn lemma_base(opensky: Seq<RawView>, k: Seq<char>)
    ensures
        last_on(opensky, k) is Some ==> exists|q: int|
            0 <= q < opensky.len() && (#[trigger] opensky[q]).icao24 == k && last_on(opensky, k)
                == Some(opensky[q]) && forall|x: int|
                q < x < opensky.len() ==> (#[trigger] opensky[x]).icao24 != k,
    decreases opensky.len(),
{
    if opensky.len() > 0 {
        let head = opensky.drop_last();
        let n = opensky.len() - 1;
        if opensky[n].icao24 != k {
            lemma_base(head, k);
            if last_on(head, k) is Some {
                let q = choose|q: int|
                    0 <= q < head.len() && (#[trigger] head[q]).icao24 == k && last_on(head, k)
                        == Some(head[q]) && forall|x: int|
                        q < x < head.len() ==> (#[trigger] head[x]).icao24 != k;
                assert(opensky[q] == head[q]);
                assert forall|x: int| q < x < opensky.len() implies (#[trigger] opensky[x]).icao24
                    != k by {
                    if x < n {
                        assert(opensky[x] == head[x]);
                    }
                }
            }
        }
    }
}

/// The callsign of a fused aircraft is that of the last OpenSky report on it, if that has
/// one, and the country likewise, whatever adsb.lol says.
pub proof fn opensky_names_come_first(
    opensky: Seq<RawView>,
    adsb: Seq<RawView>,
    i: int,
    q: int,
)
    requires
        0 <= i < fused(opensky, adsb).len(),
        0 <= q < opensky.len(),
        opensky[q].icao24 == fused(opensky, adsb)[i].icao24,
        forall|x: int|
            q < x < opensky.len() ==> (#[trigger] opensky[x]).icao24 != opensky[q].icao24,
    ensures
        opensky[q].callsign is Some ==> fused(opensky, adsb)[i].callsign == opensky[q].callsign,
        opensky[q].origin_country.len() > 0 ==> fused(opensky, adsb)[i].origin_country
            == opensky[q].origin_country,
{
    let k = opensky[q].icao24;
    lemma_last_place(opensky, k, q);
    lemma_fused_at(opensky, adsb, i);
    lemma_refreshed_by(last_on(opensky, k), adsb, k);
}

/// An aircraft whose last OpenSky report has no callsign, or that OpenSky does not report,
/// has the first callsign that an adsb.lol report on it gives, whatever country is known.
pub proof fn a_missing_callsign_is_filled_in(
    opensky: Seq<RawView>,
    adsb: Seq<RawView>,
    i: int,
    p: int,
)
    requires
        0 <= i < fused(opensky, adsb).len(),
        0 <= p < adsb.len(),
        adsb[p].icao24 == fused(opensky, adsb)[i].icao24,
        adsb[p].callsign is Some,
        forall|x: int|
            0 <= x < p && (#[trigger] adsb[x]).icao24 == adsb[p].icao24
                ==> adsb[x].callsign is None,
        forall|q: int|
            0 <= q < opensky.len() && (#[trigger] opensky[q]).icao24 == adsb[p].icao24 && (forall|x: int|
                q < x < opensky.len() ==> (#[trigger] opensky[x]).icao24 != adsb[p].icao24)
                ==> opensky[q].callsign is None,
    ensures
        fused(opensky, adsb)[i].callsign == adsb[p].callsign,
{
    let k = adsb[p].icao24;
    lemma_base(opensky, k);
    lemma_fused_at(opensky, adsb, i);
    lemma_callsign_filled_in(last_on(opensky, k), adsb, k, p);
}

/// An aircraft whose last OpenSky report has no country, or that OpenSky does not report,
/// has the first country that an adsb.lol report on it gives, whatever callsign is known.
pub proof fn a_missing_country_is_filled_in(
    opensky: Seq<RawView>,
    adsb: Seq<RawView>,
    i: int,
    p: int,
)
    requires
        0 <= i < fused(opensky, adsb).len(),
        0 <= p < adsb.len(),
        adsb[p].icao24 == fused(opensky, adsb)[i].icao24,
        adsb[p].origin_country.len() > 0,
        forall|x: int|
            0 <= x < p && (#[trigger] adsb[x]).icao24 == adsb[p].icao24
                ==> adsb[x].origin_country.len() == 0,
        forall|q: int|
            0 <= q < opensky.len() && (#[trigger] opensky[q]).icao24 == adsb[p].icao24 && (forall|x: int|
                q < x < opensky.len() ==> (#[trigger] opensky[x]).icao24 != adsb[p].icao24)
                ==> opensky[q].origin_country.len() == 0,
    ensures
        fused(opensky, adsb)[i].origin_country == adsb[p].origin_country,
{
    let k = adsb[p].icao24;
    lemma_base(opensky, k);
    lemma_fused_at(opensky, adsb, i);
    lemma_country_filled_in(last_on(opensky, k), adsb, k, p);
}

/// No callsign and no country is made up: where no report on an aircraft has one, the fused
/// aircraft has none.
pub proof fn names_are_not_made_up(opensky: Seq<RawView>, adsb: Seq<RawView>, i: int)
    requires
        0 <= i < fused(opensky, adsb).len(),
    ensures
        ({
            let r = fused(opensky, adsb)[i];
            &&& (forall|q: int|
                0 <= q < opensky.len() && (#[trigger] opensky[q]).icao24 == r.icao24
                    ==> opensky[q].callsign is None) && (forall|p: int|
                0 <= p < adsb.len() && (#[trigger] adsb[p]).icao24 == r.icao24
                    ==> adsb[p].callsign is None) ==> r.callsign is None
            &&& (forall|q: int|
                0 <= q < opensky.len() && (#[trigger] opensky[q]).icao24 == r.icao24
                    ==> opensky[q].origin_country.len() == 0) && (forall|p: int|
                0 <= p < adsb.len() && (#[trigger] adsb[p]).icao24 == r.icao24
                    ==> adsb[p].origin_country.len() == 0) ==> r.origin_country.len() == 0
        }),
{
    let k = fused(opensky, adsb)[i].icao24;
    lemma_base(opensky, k);
    lemma_fused_at(opensky, adsb, i);
    lemma_nothing_filled_in(last_on(opensky, k), adsb, k);
}

/// An aircraft that adsb.lol reports is where its last report there puts it, with the
/// motion of that report.
pub proof fn the_last_adsb_position_is_taken(
    opensky: Seq<RawView>,
    adsb: Seq<RawView>,
    i: int,
    p: int,
)
    requires
        0 <= i < fused(opensky, adsb).len(),
        0 <= p < adsb.len(),
        adsb[p].icao24 == fused(opensky, adsb)[i].icao24,
        forall|x: int| p < x < adsb.len() ==> (#[trigger] adsb[x]).icao24 != adsb[p].icao24,
    ensures
        fused(opensky, adsb)[i].longitude == adsb[p].longitude,
        fused(opensky, adsb)[i].latitude == adsb[p].latitude,
        fused(opensky, adsb)[i].altitude_m == adsb[p].altitude_m,
        fused(opensky, adsb)[i].velocity_ms == adsb[p].velocity_ms,
        fused(opensky, adsb)[i].heading == adsb[p].heading,
        fused(opensky, adsb)[i].on_ground == adsb[p].on_ground,
{
    let k = adsb[p].icao24;
    lemma_last_place(adsb, k, p);
    lemma_fused_at(opensky, adsb, i);
    lemma_refreshed_by(last_on(opensky, k), adsb, k);
}

/// An aircraft that only OpenSky reports is what its last report there says.
pub proof fn opensky_alone_is_taken_as_it_is(
    opensky: Seq<RawView>,
    adsb: Seq<RawView>,
    i: int,
    q: int,
)
    requires
        0 <= i < fused(opensky, adsb).len(),
        0 <= q < opensky.len(),
        opensky[q].icao24 == fused(opensky, adsb)[i].icao24,
        forall|x: int|
            q < x < opensky.len() ==> (#[trigger] opensky[x]).icao24 != opensky[q].icao24,
        forall|x: int| 0 <= x < adsb.len() ==> (#[trigger] adsb[x]).icao24 != opensky[q].icao24,
    ensures
        fused(opensky, adsb)[i] == opensky[q],
{
    let k = opensky[q].icao24;
    lemma_last_place(opensky, k, q);
    lemma_last_none(adsb, k);
    lemma_fused_at(opensky, adsb, i);
    lemma_refreshed_by(last_on(opensky, k), adsb, k);
}

/// Every report of either feed is about an aircraft of the list, no address stands in it
/// twice, and every address in it is reported by a feed.
pub proof fn every_reported_aircraft_is_listed_once(opensky: Seq<RawView>, adsb: Seq<RawView>)
    ensures
        forall|q: int|
            0 <= q < opensky.len() ==> exists|i: int|
                0 <= i < fused(opensky, adsb).len() && (#[trigger] fused(opensky, adsb)[i]).icao24
                    == (#[trigger] opensky[q]).icao24,
        forall|p: int|
            0 <= p < adsb.len() ==> exists|i: int|
                0 <= i < fused(opensky, adsb).len() && (#[trigger] fused(opensky, adsb)[i]).icao24
                    == (#[trigger] adsb[p]).icao24,
        forall|i: int, j: int|
            0 <= i < j < fused(opensky, adsb).len() ==> fused(opensky, adsb)[i].icao24 != fused(
                opensky,
                adsb,
            )[j].icao24,
        forall|i: int|
            0 <= i < fused(opensky, adsb).len() ==> (exists|q: int|
                0 <= q < opensky.len() && (#[trigger] opensky[q]).icao24 == fused(
                    opensky,
                    adsb,
                )[i].icao24) || (exists|p: int|
                0 <= p < adsb.len() && (#[trigger] adsb[p]).icao24 == (#[trigger] fused(
                    opensky,
                    adsb,
                )[i]).icao24),
{
    let s = fused(opensky, adsb);
    fusion_by_address(opensky, adsb, Seq::empty());
    assert forall|q: int| 0 <= q < opensky.len() implies exists|i: int|
        0 <= i < s.len() && (#[trigger] s[i]).icao24 == (#[trigger] opensky[q]).icao24 by {
        let k = opensky[q].icao24;
        assert(stands_at(opensky, k, q));
        fusion_is_the_union(opensky, adsb, k);
        assert(stands_at(s, k, place_of(s, k)));
    }
    assert forall|p: int| 0 <= p < adsb.len() implies exists|i: int|
        0 <= i < s.len() && (#[trigger] s[i]).icao24 == (#[trigger] adsb[p]).icao24 by {
        let k = adsb[p].icao24;
        assert(stands_at(adsb, k, p));
        fusion_is_the_union(opensky, adsb, k);
        assert(stands_at(s, k, place_of(s, k)));
    }
    assert forall|i: int| 0 <= i < s.len() implies (exists|q: int|
        0 <= q < opensky.len() && (#[trigger] opensky[q]).icao24 == s[i].icao24) || (exists|p: int|
        0 <= p < adsb.len() && (#[trigger] adsb[p]).icao24 == (#[trigger] s[i]).icao24) by {
        let k = s[i].icao24;
        assert(stands_at(s, k, i));
        fusion_is_the_union(opensky, adsb, k);
        if is_listed(opensky, k) {
            let q = place_of(opensky, k);
            assert(stands_at(opensky, k, q));
            assert(opensky[q].icao24 == k);
        } else {
            let p = place_of(adsb, k);
            assert(stands_at(adsb, k, p));
            assert(adsb[p].icao24 == k);
        }
    }
}

} // verus!
