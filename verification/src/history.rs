//! The tracks of the aircraft in sight.

use crate::opensky::{make_track_point, track_point};
use crate::types::{contents, RawAircraft, RawView, TrackPoint, HISTORY_MAX};
use std::collections::VecDeque;
use vstd::prelude::*;

verus! {

/// The track of one aircraft, oldest observation first.
#[derive(Debug)]
pub struct Track {
    pub icao24: String,
    pub points: VecDeque<TrackPoint>,
}

/// The content of a `Track`.
pub struct TrackView {
    pub icao24: Seq<char>,
    pub points: Seq<TrackPoint>,
}

impl View for Track {
    type V = TrackView;

    open spec fn view(&self) -> TrackView {
        TrackView { icao24: self.icao24@, points: self.points@ }
    }
}

/// The tracks of the aircraft in sight, by address.
#[derive(Debug)]
pub struct HistoryMap {
    tracks: Vec<Track>,
}

/// The track of the aircraft with the address `k` stands at place `i`.
pub open spec fn is_track(s: Seq<TrackView>, k: Seq<char>, i: int) -> bool {
    0 <= i < s.len() && s[i].icao24 == k
}

/// The tracks as a map from addresses to observations.
pub open spec fn tracks_map(s: Seq<TrackView>) -> Map<Seq<char>, Seq<TrackPoint>> {
    Map::new(
        |k: Seq<char>| exists|i: int| is_track(s, k, i),
        |k: Seq<char>| s[choose|i: int| is_track(s, k, i)].points,
    )
}

/// No address occurs twice.
pub open spec fn tracks_distinct(s: Seq<TrackView>) -> bool {
    forall|i: int, j: int| 0 <= i < j < s.len() ==> s[i].icao24 != s[j].icao24
}

impl View for HistoryMap {
    type V = Map<Seq<char>, Seq<TrackPoint>>;

    closed spec fn view(&self) -> Map<Seq<char>, Seq<TrackPoint>> {
        tracks_map(contents(self.tracks@))
    }
}

/// The latest observations of a track, as many as are kept.
pub open spec fn capped(points: Seq<TrackPoint>) -> Seq<TrackPoint> {
    if points.len() > HISTORY_MAX {
        points.skip(points.len() - HISTORY_MAX)
    } else {
        points
    }
}

/// The track of an aircraft; empty where there is none.
pub open spec fn track_of(m: Map<Seq<char>, Seq<TrackPoint>>, k: Seq<char>) -> Seq<TrackPoint> {
    if m.dom().contains(k) {
        m[k]
    } else {
        Seq::empty()
    }
}

/// The tracks with one more observation of an aircraft.
pub open spec fn recorded(
    m: Map<Seq<char>, Seq<TrackPoint>>,
    raw: RawView,
    time_ms: u64,
) -> Map<Seq<char>, Seq<TrackPoint>> {
    m.insert(raw.icao24, capped(track_of(m, raw.icao24).push(track_point(raw, time_ms))))
}

/// The tracks with one more observation of each aircraft of a list.
pub open spec fn recorded_all(
    m: Map<Seq<char>, Seq<TrackPoint>>,
    raws: Seq<RawView>,
    time_ms: u64,
) -> Map<Seq<char>, Seq<TrackPoint>>
    decreases raws.len(),
{
    if raws.len() == 0 {
        m
    } else {
        recorded(recorded_all(m, raws.drop_last(), time_ms), raws.last(), time_ms)
    }
}

/// The addresses of a list.
pub open spec fn addresses(raws: Seq<RawView>) -> Set<Seq<char>> {
    raws.map_values(|r: RawView| r.icao24).to_set()
}

/// The tracks after a new list: one more observation of each aircraft in it, and nothing
/// of the others.
pub open spec fn updated(
    m: Map<Seq<char>, Seq<TrackPoint>>,
    raws: Seq<RawView>,
    time_ms: u64,
) -> Map<Seq<char>, Seq<TrackPoint>> {
    recorded_all(m, raws, time_ms).restrict(addresses(raws))
}

/// Every track is a ring buffer: it has at most `HISTORY_MAX` observations.
pub open spec fn is_bounded(m: Map<Seq<char>, Seq<TrackPoint>>) -> bool {
    forall|k: Seq<char>| #[trigger] m.dom().contains(k) ==> m[k].len() <= HISTORY_MAX
}

proof fn lemma_entry(s: Seq<TrackView>, i: int)
    requires
        tracks_distinct(s),
        0 <= i < s.len(),
    ensures
        tracks_map(s).dom().contains(s[i].icao24),
        tracks_map(s)[s[i].icao24] == s[i].points,
{
    let k = s[i].icao24;
    assert(is_track(s, k, i));
    let p = choose|p: int| is_track(s, k, p);
    assert(is_track(s, k, p));
    if p < i {
        assert(s[p].icao24 != s[i].icao24);
    } else if i < p {
        assert(s[i].icao24 != s[p].icao24);
    }
}

proof fn lemma_replace(s: Seq<TrackView>, i: int, t: TrackView)
    requires
        tracks_distinct(s),
        is_track(s, t.icao24, i),
    ensures
        tracks_distinct(s.update(i, t)),
        tracks_map(s.update(i, t)) == tracks_map(s).insert(t.icao24, t.points),
{
    let u = s.update(i, t);
    assert(tracks_distinct(u));
    assert forall|k: Seq<char>|
        tracks_map(u).dom().contains(k) <==> tracks_map(s).insert(t.icao24, t.points).dom().contains(
            k,
        ) by {
        if exists|j: int| is_track(u, k, j) {
            let j = choose|j: int| is_track(u, k, j);
            assert(is_track(s, k, j));
        }
        if exists|j: int| is_track(s, k, j) {
            let j = choose|j: int| is_track(s, k, j);
            assert(is_track(u, k, j));
        }
        assert(is_track(u, t.icao24, i));
    }
    assert forall|k: Seq<char>| tracks_map(u).dom().contains(k) implies tracks_map(u)[k]
        == tracks_map(s).insert(t.icao24, t.points)[k] by {
        let j = choose|j: int| is_track(u, k, j);
        assert(is_track(u, k, j));
        lemma_entry(u, j);
        lemma_entry(s, j);
        if k == t.icao24 {
            lemma_entry(u, i);
        }
    }
    assert(tracks_map(u) =~= tracks_map(s).insert(t.icao24, t.points));
}

proof fn lemma_append(s: Seq<TrackView>, t: TrackView)
    requires
        tracks_distinct(s),
        !tracks_map(s).dom().contains(t.icao24),
    ensures
        tracks_distinct(s.push(t)),
        tracks_map(s.push(t)) == tracks_map(s).insert(t.icao24, t.points),
{
    let u = s.push(t);
    assert forall|i: int, j: int| 0 <= i < j < u.len() implies u[i].icao24 != u[j].icao24 by {
        if j == s.len() && u[i].icao24 == u[j].icao24 {
            assert(is_track(s, t.icao24, i));
        }
    }
    assert forall|k: Seq<char>|
        tracks_map(u).dom().contains(k) <==> tracks_map(s).insert(t.icao24, t.points).dom().contains(
            k,
        ) by {
        if exists|j: int| is_track(u, k, j) {
            let j = choose|j: int| is_track(u, k, j);
            if j < s.len() {
                assert(is_track(s, k, j));
            }
        }
        if exists|j: int| is_track(s, k, j) {
            let j = choose|j: int| is_track(s, k, j);
            assert(is_track(u, k, j));
        }
        assert(is_track(u, t.icao24, s.len() as int));
    }
    assert forall|k: Seq<char>| tracks_map(u).dom().contains(k) implies tracks_map(u)[k]
        == tracks_map(s).insert(t.icao24, t.points)[k] by {
        let j = choose|j: int| is_track(u, k, j);
        assert(is_track(u, k, j));
        lemma_entry(u, j);
        if j < s.len() {
            lemma_entry(s, j);
        }
        lemma_entry(u, s.len() as int);
    }
    assert(tracks_map(u) =~= tracks_map(s).insert(t.icao24, t.points));
}

impl HistoryMap {
    /// No address has two tracks, and no track more than `HISTORY_MAX` observations.
    pub closed spec fn wf(&self) -> bool {
        tracks_distinct(contents(self.tracks@)) && is_bounded(self@)
    }

    /// No tracks.
    pub fn new() -> (r: HistoryMap)
        ensures
            r.wf(),
            r@ == Map::<Seq<char>, Seq<TrackPoint>>::empty(),
    {
        let r = HistoryMap { tracks: Vec::new() };
        assert(r@ =~= Map::<Seq<char>, Seq<TrackPoint>>::empty());
        r
    }

    fn locate(&self, icao24: &String) -> (r: Option<usize>)
        requires
            self.wf(),
        ensures
            match r {
                Some(i) => i < self.tracks@.len() && self.tracks@[i as int].icao24@ == icao24@,
                None => !self@.dom().contains(icao24@),
            },
    {
        let n: usize = self.tracks.len();
        let ghost s = contents(self.tracks@);
        let mut i: usize = 0;
        while i < n
            invariant
                n == self.tracks@.len(),
                i <= n,
                s == contents(self.tracks@),
                forall|j: int| 0 <= j < i ==> (#[trigger] s[j]).icao24 != icao24@,
            decreases n - i,
        {
            if self.tracks[i].icao24 == *icao24 {
                return Some(i);
            }
            assert(s[i as int] == self.tracks@[i as int]@);
            i = i + 1;
        }
        assert(!self@.dom().contains(icao24@)) by {
            if self@.dom().contains(icao24@) {
                let j = choose|j: int| is_track(s, icao24@, j);
                assert(is_track(s, icao24@, j));
            }
        }
        None
    }

    /// The track of an aircraft.
    pub fn get(&self, icao24: &String) -> (r: Option<&VecDeque<TrackPoint>>)
        requires
            self.wf(),
        ensures
            match r {
                Some(points) => self@.dom().contains(icao24@) && points@ == self@[icao24@],
                None => !self@.dom().contains(icao24@),
            },
    {
        match self.locate(icao24) {
            Some(i) => {
                proof {
                    lemma_entry(contents(self.tracks@), i as int);
                    assert(contents(self.tracks@)[i as int] == self.tracks@[i as int]@);
                }
                Some(&self.tracks[i].points)
            },
            None => None,
        }
    }

    /// Adds an observation of an aircraft to its track.
    pub fn record(&mut self, raw: &RawAircraft, time_ms: u64)
        requires
            old(self).wf(),
        ensures
            final(self).wf(),
            final(self)@ == recorded(old(self)@, raw@, time_ms),
    {
        let point = make_track_point(raw, time_ms);
        let ghost s = contents(self.tracks@);
        match self.locate(&raw.icao24) {
            Some(i) => {
                proof {
                    lemma_entry(s, i as int);
                    assert(s[i as int] == self.tracks@[i as int]@);
                }
                let ghost kept = self.tracks@[i as int].points@;
                self.tracks[i].points.push_back(point);
                let ghost full = kept.push(point);
                assert(full.skip(0) =~= full);
                while self.tracks[i].points.len() > HISTORY_MAX
                    invariant
                        s.len() == self.tracks@.len(),
                        i < s.len(),
                        s[i as int].icao24 == raw.icao24@,
                        self.tracks@[i as int].points@.len() <= full.len(),
                        self.tracks@[i as int].points@ == full.skip(
                            full.len() - self.tracks@[i as int].points@.len(),
                        ),
                        self.tracks@[i as int].points@.len() >= HISTORY_MAX || self.tracks@[i
                            as int].points@.len() == full.len(),
                        contents(self.tracks@) == s.update(i as int, self.tracks@[i as int]@),
                        self.tracks@[i as int].icao24@ == raw.icao24@,
                    decreases self.tracks@[i as int].points@.len(),
                {
                    let ghost before = self.tracks@;
                    let _ = self.tracks[i].points.pop_front();
                    assert forall|j: int| 0 <= j < s.len() && j != i implies contents(
                        self.tracks@,
                    )[j] == s[j] by {
                        assert(contents(before)[j] == s[j]);
                        assert(self.tracks@[j] == before[j]);
                    }
                    assert(contents(self.tracks@) =~= s.update(i as int, self.tracks@[i as int]@));
                }
                proof {
                    let t = self.tracks@[i as int]@;
                    assert(t.points =~= capped(full));
                    lemma_replace(s, i as int, t);
                }
            },
            None => {
                let mut points: VecDeque<TrackPoint> = VecDeque::new();
                points.push_back(point);
                let t = Track { icao24: raw.icao24.clone(), points };
                self.tracks.push(t);
                proof {
                    assert(contents(self.tracks@) =~= s.push(t@));
                    assert(Seq::<TrackPoint>::empty().push(point) =~= t@.points);
                    lemma_append(s, t@);
                }
            },
        }
    }

    /// Drops the tracks of the aircraft that are not in a list.
    pub fn retain(&mut self, raws: &[RawAircraft])
        requires
            old(self).wf(),
        ensures
            final(self).wf(),
            final(self)@ == old(self)@.restrict(addresses(contents(raws@))),
    {
        let mut all: Vec<Track> = Vec::new();
        std::mem::swap(&mut all, &mut self.tracks);
        let mut kept: Vec<Track> = Vec::new();
        let ghost present = addresses(contents(raws@));
        let ghost s = contents(all@);
        proof {
            assert(s.take(0) =~= Seq::<TrackView>::empty());
            assert(contents(kept@) =~= Seq::<TrackView>::empty());
            assert(tracks_map(contents(kept@)) =~= tracks_map(s.take(0)).restrict(present));
        }
        for t in it: all
            invariant
                s == contents(it.seq()),
                tracks_distinct(s),
                present == addresses(contents(raws@)),
                tracks_distinct(contents(kept@)),
                tracks_map(contents(kept@)) == tracks_map(s.take(it.index())).restrict(present),
        {
            let ghost i = it.index();
            let ghost before = contents(kept@);
            proof {
                assert(s[i] == t@);
                assert(s.take(i + 1) =~= s.take(i).push(t@));
                assert(tracks_distinct(s.take(i)));
                assert(!tracks_map(s.take(i)).dom().contains(t@.icao24)) by {
                    if tracks_map(s.take(i)).dom().contains(t@.icao24) {
                        let j = choose|j: int| is_track(s.take(i), t@.icao24, j);
                        assert(is_track(s.take(i), t@.icao24, j));
                        assert(s[j].icao24 != s[i].icao24);
                    }
                }
                lemma_append(s.take(i), t@);
            }
            if is_present(raws, &t.icao24) {
                proof {
                    lemma_append(before, t@);
                    assert(tracks_map(before.push(t@)) =~= tracks_map(s.take(i + 1)).restrict(
                        present,
                    ));
                }
                kept.push(t);
                assert(contents(kept@) =~= before.push(t@));
            } else {
                assert(tracks_map(s.take(i + 1)).restrict(present) =~= tracks_map(
                    s.take(i),
                ).restrict(present));
            }
        }
        assert(s.take(s.len() as int) =~= s);
        self.tracks = kept;
    }

    /// Adds an observation of every aircraft of a list and drops the tracks of the others.
    pub fn update(&mut self, raws: &[RawAircraft], time_ms: u64)
        requires
            old(self).wf(),
        ensures
            final(self).wf(),
            final(self)@ == updated(old(self)@, contents(raws@), time_ms),
    {
        let ghost all = contents(raws@);
        let n: usize = raws.len();
        let mut i: usize = 0;
        assert(all.take(0) =~= Seq::<RawView>::empty());
        while i < n
            invariant
                self.wf(),
                n == raws@.len(),
                i <= n,
                all == contents(raws@),
                self@ == recorded_all(old(self)@, all.take(i as int), time_ms),
            decreases n - i,
        {
            proof {
                assert(all.take(i + 1).drop_last() =~= all.take(i as int));
                assert(all.take(i + 1).last() == raws@[i as int]@);
            }
            self.record(&raws[i], time_ms);
            i = i + 1;
        }
        assert(all.take(n as int) =~= all);
        self.retain(raws);
    }
}

/// Whether an aircraft of the list has an address.
fn is_present(raws: &[RawAircraft], icao24: &String) -> (r: bool)
    ensures
        r == addresses(contents(raws@)).contains(icao24@),
{
    let ghost names = contents(raws@).map_values(|r: RawView| r.icao24);
    let n: usize = raws.len();
    let mut i: usize = 0;
    while i < n
        invariant
            n == raws@.len(),
            i <= n,
            names == contents(raws@).map_values(|r: RawView| r.icao24),
            forall|j: int| 0 <= j < i ==> #[trigger] names[j] != icao24@,
        decreases n - i,
    {
        assert(names[i as int] == raws@[i as int].icao24@);
        if raws[i].icao24 == *icao24 {
            assert(names.contains(icao24@));
            return true;
        }
        i = i + 1;
    }
    false
}

proof fn lemma_recorded_all(
    m: Map<Seq<char>, Seq<TrackPoint>>,
    raws: Seq<RawView>,
    time_ms: u64,
    k: Seq<char>,
)
    ensures
        addresses(raws).contains(k) ==> recorded_all(m, raws, time_ms).dom().contains(k)
            && recorded_all(m, raws, time_ms)[k].len() <= HISTORY_MAX,
        !addresses(raws).contains(k) ==> track_of(recorded_all(m, raws, time_ms), k) == track_of(
            m,
            k,
        ),
    decreases raws.len(),
{
    if raws.len() > 0 {
        let head = raws.drop_last();
        lemma_recorded_all(m, head, time_ms, k);
        lemma_addresses(head, raws.last(), k);
        assert(head.push(raws.last()) =~= raws);
    }
}

proof fn lemma_addresses(raws: Seq<RawView>, r: RawView, k: Seq<char>)
    ensures
        addresses(raws.push(r)).contains(k) <==> addresses(raws).contains(k) || r.icao24 == k,
{
    let name = |r: RawView| r.icao24;
    assert(raws.push(r).map_values(name) =~= raws.map_values(name).push(r.icao24));
    crate::order::lemma_push_members(raws.map_values(name), r.icao24, k);
}

/// No track ever has more than `HISTORY_MAX` observations.
pub proof fn tracks_are_ring_buffers(history: &HistoryMap)
    requires
        history.wf(),
    ensures
        is_bounded(history@),
{
}

/// After a new list there is a track exactly of each aircraft in the list, and none has
/// more than `HISTORY_MAX` observations.
pub proof fn tracks_are_of_those_in_sight(
    m: Map<Seq<char>, Seq<TrackPoint>>,
    raws: Seq<RawView>,
    time_ms: u64,
)
    ensures
        updated(m, raws, time_ms).dom() == addresses(raws),
        is_bounded(updated(m, raws, time_ms)),
{
    let u = updated(m, raws, time_ms);
    assert forall|k: Seq<char>| u.dom().contains(k) <==> addresses(raws).contains(k) by {
        lemma_recorded_all(m, raws, time_ms, k);
    }
    assert(u.dom() =~= addresses(raws));
    assert forall|k: Seq<char>| #[trigger] u.dom().contains(k) implies u[k].len() <= HISTORY_MAX by {
        lemma_recorded_all(m, raws, time_ms, k);
    }
}

/// The track of an aircraft that the list reports once is the former track with the new
/// observation at its end, without the oldest ones that no longer fit.
pub proof fn track_grows_at_its_end(
    m: Map<Seq<char>, Seq<TrackPoint>>,
    raws: Seq<RawView>,
    time_ms: u64,
    i: int,
)
    requires
        0 <= i < raws.len(),
        crate::fusion::is_distinct(raws),
    ensures
        updated(m, raws, time_ms).dom().contains(raws[i].icao24),
        updated(m, raws, time_ms)[raws[i].icao24] == capped(
            track_of(m, raws[i].icao24).push(track_point(raws[i], time_ms)),
        ),
{
    let k = raws[i].icao24;
    lemma_single(m, raws, time_ms, i);
    assert(addresses(raws).contains(k)) by {
        assert(raws.map_values(|r: RawView| r.icao24)[i] == k);
    }
}

proof fn lemma_single(
    m: Map<Seq<char>, Seq<TrackPoint>>,
    raws: Seq<RawView>,
    time_ms: u64,
    i: int,
)
    requires
        0 <= i < raws.len(),
        crate::fusion::is_distinct(raws),
    ensures
        recorded_all(m, raws, time_ms).dom().contains(raws[i].icao24),
        recorded_all(m, raws, time_ms)[raws[i].icao24] == capped(
            track_of(m, raws[i].icao24).push(track_point(raws[i], time_ms)),
        ),
    decreases raws.len(),
{
    let head = raws.drop_last();
    let k = raws[i].icao24;
    if i < raws.len() - 1 {
        lemma_single(m, head, time_ms, i);
        assert(raws[i].icao24 != raws[raws.len() - 1].icao24);
    } else {
        lemma_recorded_all(m, head, time_ms, k);
        assert(!addresses(head).contains(k)) by {
            let names = head.map_values(|r: RawView| r.icao24);
            if names.contains(k) {
                let j = choose|j: int| 0 <= j < names.len() && names[j] == k;
                assert(raws[j].icao24 != raws[i].icao24);
            }
        }
    }
}

/// After a new list that reports an aircraft once, its track is the former one with the new
/// observation at its end. Of more than 36 observations the oldest are gone.
pub proof fn the_newest_observations_are_kept(
    m: Map<Seq<char>, Seq<TrackPoint>>,
    raws: Seq<RawView>,
    time_ms: u64,
    i: int,
    before: Seq<TrackPoint>,
)
    requires
        0 <= i < raws.len(),
        forall|x: int, y: int| 0 <= x < y < raws.len() ==> raws[x].icao24 != raws[y].icao24,
        m.dom().contains(raws[i].icao24) ==> before == m[raws[i].icao24],
        !m.dom().contains(raws[i].icao24) ==> before.len() == 0,
    ensures
        ({
            let after = updated(m, raws, time_ms)[raws[i].icao24];
            &&& updated(m, raws, time_ms).dom().contains(raws[i].icao24)
            &&& after.len() == (if before.len() + 1 <= 36 {
                before.len() + 1
            } else {
                36
            })
            &&& after[after.len() - 1] == (TrackPoint {
                time_ms,
                lng: raws[i].longitude,
                lat: raws[i].latitude,
                altitude_m: raws[i].altitude_m,
                velocity_ms: raws[i].velocity_ms,
                heading: raws[i].heading,
                on_ground: raws[i].on_ground,
            })
            &&& forall|j: int|
                0 <= j < after.len() - 1 ==> #[trigger] after[j] == before[before.len() + 1
                    - after.len() + j]
        }),
{
    let k = raws[i].icao24;
    assert(crate::fusion::is_distinct(raws));
    track_grows_at_its_end(m, raws, time_ms, i);
    assert(track_of(m, k) =~= before);
}

/// After a new list there is a track exactly of the aircraft in it.
pub proof fn aircraft_out_of_sight_are_forgotten(
    m: Map<Seq<char>, Seq<TrackPoint>>,
    raws: Seq<RawView>,
    time_ms: u64,
    k: Seq<char>,
)
    ensures
        updated(m, raws, time_ms).dom().contains(k) <==> exists|i: int|
            0 <= i < raws.len() && (#[trigger] raws[i]).icao24 == k,
{
    tracks_are_of_those_in_sight(m, raws, time_ms);
    let names = raws.map_values(|r: RawView| r.icao24);
    assert(addresses(raws).contains(k) <==> names.contains(k));
    if names.contains(k) {
        let i = choose|i: int| 0 <= i < names.len() && names[i] == k;
        assert(raws[i].icao24 == k);
    }
    if exists|i: int| 0 <= i < raws.len() && (#[trigger] raws[i]).icao24 == k {
        let i = choose|i: int| 0 <= i < raws.len() && (#[trigger] raws[i]).icao24 == k;
        assert(names[i] == k);
    }
}

/// One observation changes the track of its aircraft alone, and adds to its end.
pub proof fn an_observation_changes_one_track(
    m: Map<Seq<char>, Seq<TrackPoint>>,
    raw: RawView,
    time_ms: u64,
    other: Seq<char>,
)
    ensures
        recorded(m, raw, time_ms).dom().contains(raw.icao24),
        0 < recorded(m, raw, time_ms)[raw.icao24].len() <= 36,
        recorded(m, raw, time_ms)[raw.icao24].last().time_ms == time_ms,
        recorded(m, raw, time_ms)[raw.icao24].last().lng == raw.longitude,
        recorded(m, raw, time_ms)[raw.icao24].last().lat == raw.latitude,
        other != raw.icao24 ==> (recorded(m, raw, time_ms).dom().contains(other)
            <==> m.dom().contains(other)) && recorded(m, raw, time_ms)[other] == m[other],
{
}

} // verus!
