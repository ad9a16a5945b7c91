//! Sorting that keeps equals in place.

use crate::types::contents;
use vstd::prelude::*;

verus! {

/// `x` put into `s` behind everything that comes before it or is its equal.
pub open spec fn placed<V>(s: Seq<V>, x: V, le: spec_fn(V, V) -> bool) -> Seq<V>
    decreases s.len(),
{
    if s.len() == 0 || le(s.last(), x) {
        s.push(x)
    } else {
        placed(s.drop_last(), x, le).push(s.last())
    }
}

/// `s` in the order `le`; equals stay in the order in which they stand in `s`.
pub open spec fn sorted_by<V>(s: Seq<V>, le: spec_fn(V, V) -> bool) -> Seq<V>
    decreases s.len(),
{
    if s.len() == 0 {
        s
    } else {
        placed(sorted_by(s.drop_last(), le), s.last(), le)
    }
}

/// Every two values are ordered, and the order is transitive.
pub open spec fn is_preorder<V>(le: spec_fn(V, V) -> bool) -> bool {
    &&& forall|x: V, y: V| #[trigger] le(x, y) || le(y, x)
    &&& forall|x: V, y: V, z: V| #[trigger] le(x, y) && #[trigger] le(y, z) ==> le(x, z)
}

/// The values of `s` that are neither before nor behind `k`.
pub open spec fn equals_of<V>(s: Seq<V>, k: V, le: spec_fn(V, V) -> bool) -> Seq<V> {
    s.filter(|x: V| le(x, k) && le(k, x))
}

proof fn lemma_placed_ordered<V>(s: Seq<V>, x: V, le: spec_fn(V, V) -> bool)
    requires
        is_preorder(le),
        forall|i: int, j: int| 0 <= i < j < s.len() ==> le(s[i], s[j]),
    ensures
        placed(s, x, le).len() == s.len() + 1,
        forall|i: int, j: int|
            0 <= i < j < placed(s, x, le).len() ==> le(placed(s, x, le)[i], placed(s, x, le)[j]),
        forall|i: int|
            0 <= i < placed(s, x, le).len() ==> #[trigger] placed(s, x, le)[i] == x || s.contains(
                placed(s, x, le)[i],
            ),
    decreases s.len(),
{
    if s.len() == 0 || le(s.last(), x) {
        if s.len() > 0 {
            assert forall|i: int| 0 <= i < s.len() implies le(s[i], x) by {
                if i < s.len() - 1 {
                    assert(le(s[i], s[s.len() - 1]));
                }
            }
        }
        assert forall|i: int| 0 <= i < s.len() implies #[trigger] s.contains(s[i]) by {}
    } else {
        let head = s.drop_last();
        lemma_placed_ordered(head, x, le);
        let p = placed(head, x, le);
        assert(le(x, s.last()));
        assert forall|i: int| 0 <= i < p.len() implies le(#[trigger] p[i], s.last()) && (p[i] == x
            || s.contains(p[i])) by {
            if p[i] != x {
                let k = choose|k: int| 0 <= k < head.len() && head[k] == p[i];
                assert(s[k] == p[i]);
            }
        }
    }
}

proof fn lemma_placed_equals<V>(s: Seq<V>, x: V, k: V, le: spec_fn(V, V) -> bool)
    requires
        is_preorder(le),
    ensures
        equals_of(placed(s, x, le), k, le) == (if le(x, k) && le(k, x) {
            equals_of(s, k, le).push(x)
        } else {
            equals_of(s, k, le)
        }),
    decreases s.len(),
{
    reveal(Seq::filter);
    let like = |y: V| le(y, k) && le(k, y);
    if s.len() == 0 || le(s.last(), x) {
        assert(s.push(x).drop_last() =~= s);
    } else {
        let head = s.drop_last();
        let last = s.last();
        lemma_placed_equals(head, x, k, le);
        let p = placed(head, x, le);
        assert(p.push(last).drop_last() =~= p);
        if like(x) && like(last) {
            assert(le(last, k) && le(k, x));
        }
    }
}

/// The outcome of a sort is in order.
pub proof fn sorted_is_ordered<V>(s: Seq<V>, le: spec_fn(V, V) -> bool)
    requires
        is_preorder(le),
    ensures
        sorted_by(s, le).len() == s.len(),
        forall|i: int, j: int|
            0 <= i < j < s.len() ==> le(sorted_by(s, le)[i], sorted_by(s, le)[j]),
    decreases s.len(),
{
    if s.len() > 0 {
        sorted_is_ordered(s.drop_last(), le);
        lemma_placed_ordered(sorted_by(s.drop_last(), le), s.last(), le);
    }
}

/// A sort neither loses nor adds anything, and values that are each other's equals keep
/// the order in which they came.
pub proof fn sorted_keeps_equals<V>(s: Seq<V>, k: V, le: spec_fn(V, V) -> bool)
    requires
        is_preorder(le),
    ensures
        equals_of(sorted_by(s, le), k, le) == equals_of(s, k, le),
    decreases s.len(),
{
    if s.len() > 0 {
        reveal(Seq::filter);
        sorted_keeps_equals(s.drop_last(), k, le);
        lemma_placed_equals(sorted_by(s.drop_last(), le), s.last(), k, le);
    }
}

proof fn lemma_placed_members<V>(s: Seq<V>, x: V, y: V, le: spec_fn(V, V) -> bool)
    ensures
        placed(s, x, le).contains(y) <==> (y == x || s.contains(y)),
    decreases s.len(),
{
    if s.len() == 0 || le(s.last(), x) {
        lemma_push_members(s, x, y);
    } else {
        lemma_placed_members(s.drop_last(), x, y, le);
        lemma_push_members(placed(s.drop_last(), x, le), s.last(), y);
        lemma_push_members(s.drop_last(), s.last(), y);
        assert(s =~= s.drop_last().push(s.last()));
    }
}

pub proof fn lemma_push_members<V>(s: Seq<V>, x: V, y: V)
    ensures
        s.push(x).contains(y) <==> (y == x || s.contains(y)),
{
    if s.contains(y) {
        let i = choose|i: int| 0 <= i < s.len() && s[i] == y;
        assert(s.push(x)[i] == y);
    }
    if y == x {
        assert(s.push(x)[s.len() as int] == y);
    }
}

/// What stands in the outcome of a sort is what stood in its input.
pub proof fn sorted_members<V>(s: Seq<V>, y: V, le: spec_fn(V, V) -> bool)
    ensures
        sorted_by(s, le).contains(y) <==> s.contains(y),
    decreases s.len(),
{
    if s.len() > 0 {
        sorted_members(s.drop_last(), y, le);
        lemma_placed_members(sorted_by(s.drop_last(), le), s.last(), y, le);
        lemma_push_members(s.drop_last(), s.last(), y);
        assert(s =~= s.drop_last().push(s.last()));
    }
}

/// Something of `s` is neither before nor behind `k` where such values are found.
proof fn lemma_equals_found<V>(s: Seq<V>, k: V, le: spec_fn(V, V) -> bool)
    requires
        equals_of(s, k, le).len() > 0,
    ensures
        exists|i: int| 0 <= i < s.len() && le(#[trigger] s[i], k) && le(k, s[i]),
    decreases s.len(),
{
    reveal(Seq::filter);
    if s.len() > 0 {
        let last = s[s.len() - 1];
        if !(le(last, k) && le(k, last)) {
            let head = s.drop_last();
            lemma_equals_found(head, k, le);
            let i = choose|i: int| 0 <= i < head.len() && le(#[trigger] head[i], k) && le(k, head[i]);
            assert(s[i] == head[i]);
        }
    }
}

/// There is only one order in which equals keep their places: two lists in order that
/// have the same equals of every value are the same.
pub proof fn stable_order_is_unique<V>(s: Seq<V>, t: Seq<V>, le: spec_fn(V, V) -> bool)
    requires
        is_preorder(le),
        forall|i: int, j: int| 0 <= i < j < s.len() ==> le(s[i], s[j]),
        forall|i: int, j: int| 0 <= i < j < t.len() ==> le(t[i], t[j]),
        forall|k: V| #[trigger] equals_of(s, k, le) == equals_of(t, k, le),
    ensures
        s == t,
    decreases s.len(),
{
    reveal(Seq::filter);
    if s.len() == 0 {
        if t.len() > 0 {
            assert(le(t.last(), t.last()));
            assert(equals_of(s, t.last(), le) == equals_of(t, t.last(), le));
        }
        assert(s =~= t);
    } else {
        let x = s.last();
        assert(le(x, x));
        assert(equals_of(s, x, le).last() == x);
        assert(equals_of(s, x, le) == equals_of(t, x, le));
        lemma_equals_found(t, x, le);
        let y = t.last();
        assert(le(y, y));
        assert(le(x, y)) by {
            let i = choose|i: int| 0 <= i < t.len() && le(#[trigger] t[i], x) && le(x, t[i]);
            if i < t.len() - 1 {
                assert(le(t[i], t[t.len() - 1]));
            }
        }
        assert(equals_of(s, y, le) == equals_of(t, y, le));
        lemma_equals_found(s, y, le);
        assert(le(y, x)) by {
            let i = choose|i: int| 0 <= i < s.len() && le(#[trigger] s[i], y) && le(y, s[i]);
            if i < s.len() - 1 {
                assert(le(s[i], s[s.len() - 1]));
            }
        }
        assert(equals_of(t, x, le).last() == y);
        assert forall|k: V| #[trigger]
            equals_of(s.drop_last(), k, le) == equals_of(t.drop_last(), k, le) by {
            assert(equals_of(s, k, le) == equals_of(t, k, le));
            if le(x, k) && le(k, x) {
                assert(equals_of(s, k, le).drop_last() =~= equals_of(s.drop_last(), k, le));
                assert(equals_of(t, k, le).drop_last() =~= equals_of(t.drop_last(), k, le));
            }
        }
        stable_order_is_unique(s.drop_last(), t.drop_last(), le);
        assert(s =~= s.drop_last().push(x));
        assert(t =~= t.drop_last().push(y));
    }
}

/// Two lists may be sorted each for itself before they are joined and sorted.
pub proof fn sorted_join<V>(s: Seq<V>, t: Seq<V>, le: spec_fn(V, V) -> bool)
    requires
        is_preorder(le),
    ensures
        sorted_by(s + t, le) == sorted_by(sorted_by(s, le) + sorted_by(t, le), le),
{
    let joined = sorted_by(s, le) + sorted_by(t, le);
    sorted_is_ordered(s + t, le);
    sorted_is_ordered(joined, le);
    assert forall|k: V| #[trigger]
        equals_of(sorted_by(s + t, le), k, le) == equals_of(sorted_by(joined, le), k, le) by {
        let like = |x: V| le(x, k) && le(k, x);
        sorted_keeps_equals(s + t, k, le);
        sorted_keeps_equals(joined, k, le);
        sorted_keeps_equals(s, k, le);
        sorted_keeps_equals(t, k, le);
        Seq::filter_distributes_over_add(s, t, like);
        Seq::filter_distributes_over_add(sorted_by(s, le), sorted_by(t, le), like);
    }
    stable_order_is_unique(sorted_by(s + t, le), sorted_by(joined, le), le);
}

/// Where a value of a kind stands in a list, there is a first one.
pub proof fn lemma_first_place<V>(s: Seq<V>, i: int, kind: spec_fn(V) -> bool) -> (k: int)
    requires
        0 <= i < s.len(),
        kind(s[i]),
    ensures
        0 <= k <= i,
        kind(s[k]),
        forall|j: int| 0 <= j < k ==> !kind(#[trigger] s[j]),
    decreases i,
{
    if exists|j: int| 0 <= j < i && kind(#[trigger] s[j]) {
        lemma_first_place(s, choose|j: int| 0 <= j < i && kind(#[trigger] s[j]), kind)
    } else {
        i
    }
}

/// The first value of a kind is the first that is found when the list is searched for
/// that kind.
pub proof fn lemma_first_found<V>(s: Seq<V>, k: int, kind: spec_fn(V) -> bool)
    requires
        0 <= k < s.len(),
        kind(s[k]),
        forall|i: int| 0 <= i < k ==> !kind(#[trigger] s[i]),
    ensures
        s.filter(kind).len() > 0,
        s.filter(kind)[0] == s[k],
    decreases s.len(),
{
    reveal(Seq::filter);
    let head = s.drop_last();
    if k < head.len() {
        assert forall|i: int| 0 <= i < k implies !kind(#[trigger] head[i]) by {
            assert(head[i] == s[i]);
        }
        lemma_first_found(head, k, kind);
    } else {
        lemma_none_found(head, kind);
    }
}

proof fn lemma_none_found<V>(s: Seq<V>, kind: spec_fn(V) -> bool)
    requires
        forall|i: int| 0 <= i < s.len() ==> !kind(#[trigger] s[i]),
    ensures
        s.filter(kind).len() == 0,
    decreases s.len(),
{
    reveal(Seq::filter);
    if s.len() > 0 {
        let head = s.drop_last();
        assert forall|i: int| 0 <= i < head.len() implies !kind(#[trigger] head[i]) by {
            assert(head[i] == s[i]);
        }
        lemma_none_found(head, kind);
        assert(!kind(s[s.len() - 1]));
    }
}

/// Two lists that differ only in their order have the values of any two places in common.
pub proof fn lemma_two_places<V>(s: Seq<V>, t: Seq<V>, i: int, j: int) -> (r: (int, int))
    requires
        s.to_multiset() == t.to_multiset(),
        0 <= i < s.len(),
        0 <= j < s.len(),
        i != j,
    ensures
        0 <= r.0 < t.len(),
        0 <= r.1 < t.len(),
        r.0 != r.1,
        t[r.0] == s[i],
        t[r.1] == s[j],
{
    assert(s.contains(s[i]));
    vstd::seq_lib::to_multiset_contains(s, s[i]);
    vstd::seq_lib::to_multiset_contains(t, s[i]);
    let p = choose|p: int| 0 <= p < t.len() && t[p] == s[i];
    let rest = s.remove(i);
    let others = t.remove(p);
    vstd::seq_lib::to_multiset_remove(s, i);
    vstd::seq_lib::to_multiset_remove(t, p);
    let at = if j < i {
        j
    } else {
        j - 1
    };
    assert(rest[at] == s[j]);
    assert(rest.contains(s[j]));
    vstd::seq_lib::to_multiset_contains(rest, s[j]);
    vstd::seq_lib::to_multiset_contains(others, s[j]);
    let q = choose|q: int| 0 <= q < others.len() && others[q] == s[j];
    let r = (
        p,
        if q < p {
            q
        } else {
            q + 1
        },
    );
    assert(t[r.1] == others[q]);
    r
}

/// Numbers below `n` that are sent to different numbers below `m` are no more than these.
pub proof fn lemma_pigeonhole(n: nat, m: nat, to: spec_fn(int) -> int)
    requires
        forall|i: int| 0 <= i < n ==> 0 <= #[trigger] to(i) < m,
        forall|i: int, j: int| 0 <= i < j < n ==> #[trigger] to(i) != #[trigger] to(j),
    ensures
        n <= m,
    decreases m,
{
    if n > 0 {
        let last = to(n - 1);
        let squeezed = |i: int|
            if to(i) == m - 1 {
                last
            } else {
                to(i)
            };
        assert forall|i: int| 0 <= i < n - 1 implies 0 <= #[trigger] squeezed(i) < m - 1 by {
            assert(to(i) != to(n - 1));
        }
        assert forall|i: int, j: int| 0 <= i < j < n - 1 implies #[trigger] squeezed(i)
            != #[trigger] squeezed(j) by {
            assert(to(i) != to(j));
            assert(to(i) != to(n - 1));
            assert(to(j) != to(n - 1));
        }
        lemma_pigeonhole((n - 1) as nat, (m - 1) as nat, squeezed);
    }
}

/// `x` put behind everything that comes before it or is its equal.
fn place<T: View, C: Fn(&T, &T) -> bool>(
    out: &mut Vec<T>,
    x: T,
    le: &C,
    Ghost(order): Ghost<spec_fn(T::V, T::V) -> bool>,
)
    requires
        forall|a: &T, b: &T| call_requires(*le, (a, b)),
        forall|a: &T, b: &T, r: bool| call_ensures(*le, (a, b), r) ==> r == order(a@, b@),
    ensures
        contents(final(out)@) == placed(contents(old(out)@), x@, order),
{
    let ghost before = contents(out@);
    let mut at: usize = out.len();
    proof {
        assert(before.take(at as int) =~= before);
        assert(placed(before, x@, order) + before.skip(at as int) =~= placed(before, x@, order));
    }
    while at > 0 && !le(&out[at - 1], &x)
        invariant
            at <= out@.len(),
            before == contents(out@),
            forall|a: &T, b: &T| call_requires(*le, (a, b)),
            forall|a: &T, b: &T, r: bool| call_ensures(*le, (a, b), r) ==> r == order(a@, b@),
            placed(before, x@, order) == placed(before.take(at as int), x@, order) + before.skip(
                at as int,
            ),
        ensures
            at <= out@.len(),
            before == contents(out@),
            placed(before, x@, order) == before.take(at as int).push(x@) + before.skip(at as int),
        decreases at,
    {
        proof {
            let s = before.take(at as int);
            assert(s.drop_last() =~= before.take(at - 1));
            assert(s.last() == before[at - 1]);
            assert(placed(s.drop_last(), x@, order).push(s.last()) + before.skip(at as int)
                =~= placed(s.drop_last(), x@, order) + before.skip(at - 1));
        }
        at = at - 1;
    }
    out.insert(at, x);
    assert(contents(out@) =~= before.take(at as int).push(x@) + before.skip(at as int));
}

/// The items in the order `le`; equals stay in the order in which they came.
pub(crate) fn stable_sort<T: View, C: Fn(&T, &T) -> bool>(
    items: Vec<T>,
    le: &C,
    Ghost(order): Ghost<spec_fn(T::V, T::V) -> bool>,
) -> (r: Vec<T>)
    requires
        forall|a: &T, b: &T| call_requires(*le, (a, b)),
        forall|a: &T, b: &T, r: bool| call_ensures(*le, (a, b), r) ==> r == order(a@, b@),
    ensures
        contents(r@) == sorted_by(contents(items@), order),
{
    let mut out: Vec<T> = Vec::new();
    let ghost all = contents(items@);
    assert(all.take(0) =~= Seq::<T::V>::empty());
    assert(contents(out@) =~= Seq::<T::V>::empty());
    for x in it: items
        invariant
            forall|a: &T, b: &T| call_requires(*le, (a, b)),
            forall|a: &T, b: &T, r: bool| call_ensures(*le, (a, b), r) ==> r == order(a@, b@),
            all == contents(it.seq()),
            contents(out@) == sorted_by(all.take(it.index()), order),
    {
        proof {
            let k = it.index();
            assert(all.take(k + 1).drop_last() =~= all.take(k));
            assert(all.take(k + 1).last() == x@);
        }
        place(&mut out, x, le, Ghost(order));
    }
    assert(all.take(all.len() as int) =~= all);
    out
}

} // verus!
