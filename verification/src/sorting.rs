//! Stable sorting of items by an integer key: what it means, the outside
//! routine that does it, and the proof that the result is determined.

use vstd::prelude::*;

verus! {

/// The test for an item's key to be `k`.
pub open spec fn has_key<T>(k: usize) -> spec_fn((usize, T)) -> bool {
    |p: (usize, T)| p.0 == k
}

/// The items of `s` whose key is `k`, in the order in which they stand in `s`.
pub open spec fn keyed<T>(s: Seq<(usize, T)>, k: usize) -> Seq<(usize, T)> {
    s.filter(has_key(k))
}

/// Whether the keys of `s` never fall.
pub open spec fn ascending<T>(s: Seq<(usize, T)>) -> bool {
    forall|i: int, j: int| 0 <= i < j < s.len() ==> s[i].0 <= s[j].0
}

/// Whether `out` is `items` sorted by key without reordering equal keys: its
/// keys ascend, and under each key it holds what `items` holds, in the same
/// order.
pub open spec fn is_stable_sort<T>(out: Seq<(usize, T)>, items: Seq<(usize, T)>) -> bool {
    &&& ascending(out)
    &&& forall|k: usize| #[trigger] keyed(out, k) == keyed(items, k)
}

/// Calls `Itertools::sorted_by_key` with the first component as the key. The
/// crate documents it as a stable sort in ascending order of the keys, made
/// with `slice::sort_by_key`.
#[verifier::external_body]
pub(crate) fn sort_by_key<T>(items: Vec<(usize, T)>) -> (out: Vec<(usize, T)>)
    ensures
        is_stable_sort(out@, items@),
{
    itertools::Itertools::sorted_by_key(items.into_iter(), |p| p.0).collect()
}

/// Where an item of key `k` goes into the ascending `s`: behind the last item
/// whose key is at most `k`.
pub open spec fn slot_for<T>(s: Seq<(usize, T)>, k: usize) -> int
    decreases s.len(),
{
    if s.len() == 0 {
        0
    } else if s.last().0 <= k {
        s.len() as int
    } else {
        slot_for(s.drop_last(), k)
    }
}

/// `s` sorted by key, equal keys in the order in which they stand in `s`.
pub open spec fn stable_sorted<T>(s: Seq<(usize, T)>) -> Seq<(usize, T)>
    decreases s.len(),
{
    if s.len() == 0 {
        s
    } else {
        let rest = stable_sorted(s.drop_last());
        rest.insert(slot_for(rest, s.last().0), s.last())
    }
}

/// `s` with each item's payload replaced by what `f` makes of it.
pub open spec fn relabel<T, U>(s: Seq<(usize, T)>, f: spec_fn(T) -> U) -> Seq<(usize, U)> {
    s.map_values(|p: (usize, T)| (p.0, f(p.1)))
}

/// The payloads of `s`, without the keys.
pub open spec fn unkeyed<T>(s: Seq<(usize, T)>) -> Seq<T> {
    s.map_values(|p: (usize, T)| p.1)
}

proof fn lemma_keyed_push<T>(s: Seq<(usize, T)>, x: (usize, T), k: usize)
    ensures
        keyed(s.push(x), k) == if x.0 == k {
            keyed(s, k).push(x)
        } else {
            keyed(s, k)
        },
{
    reveal(Seq::filter);
    assert(s.push(x).drop_last() == s);
}

proof fn lemma_keyed_add<T>(a: Seq<(usize, T)>, b: Seq<(usize, T)>, k: usize)
    ensures
        keyed(a + b, k) == keyed(a, k) + keyed(b, k),
{
    Seq::filter_distributes_over_add(a, b, has_key::<T>(k));
}

proof fn lemma_keyed_none<T>(s: Seq<(usize, T)>, k: usize)
    requires
        forall|i: int| 0 <= i < s.len() ==> (#[trigger] s[i]).0 != k,
    ensures
        keyed(s, k) == Seq::<(usize, T)>::empty(),
    decreases s.len(),
{
    reveal(Seq::filter);
    if s.len() > 0 {
        lemma_keyed_none(s.drop_last(), k);
    }
}

proof fn lemma_keyed_item<T>(s: Seq<(usize, T)>, k: usize, i: int)
    requires
        0 <= i < keyed(s, k).len(),
    ensures
        keyed(s, k)[i].0 == k,
        s.contains(keyed(s, k)[i]),
{
    let pred = has_key::<T>(k);
    s.lemma_filter_pred(pred, i);
    assert(s.filter(pred).contains(s.filter(pred)[i]));
    s.lemma_filter_contains_rev(pred, s.filter(pred)[i]);
}

proof fn lemma_keyed_holds<T>(s: Seq<(usize, T)>, i: int)
    requires
        0 <= i < s.len(),
    ensures
        keyed(s, s[i].0).len() > 0,
{
    let pred = has_key::<T>(s[i].0);
    s.lemma_filter_contains(pred, i);
}

/// In an ascending sequence the slot for `k` parts the keys up to `k` from
/// the keys above it.
pub proof fn lemma_slot_for<T>(s: Seq<(usize, T)>, k: usize)
    requires
        ascending(s),
    ensures
        0 <= slot_for(s, k) <= s.len(),
        forall|i: int| 0 <= i < slot_for(s, k) ==> (#[trigger] s[i]).0 <= k,
        forall|i: int| slot_for(s, k) <= i < s.len() ==> (#[trigger] s[i]).0 > k,
    decreases s.len(),
{
    if s.len() > 0 && s.last().0 > k {
        let front = s.drop_last();
        lemma_slot_for(front, k);
        assert forall|i: int| 0 <= i < slot_for(s, k) implies (#[trigger] s[i]).0 <= k by {
            assert(front[i].0 <= k);
        }
        assert forall|i: int| slot_for(s, k) <= i < s.len() implies (#[trigger] s[i]).0 > k by {
            if i < front.len() {
                assert(front[i].0 > k);
            }
        }
    } else if s.len() > 0 {
        assert forall|i: int| 0 <= i < s.len() implies (#[trigger] s[i]).0 <= k by {
            if i < s.len() - 1 {
                assert(s[i].0 <= s[s.len() - 1].0);
            }
        }
    }
}

/// `stable_sorted` is a stable sort.
pub proof fn lemma_stable_sorted<T>(s: Seq<(usize, T)>)
    ensures
        is_stable_sort(stable_sorted(s), s),
        stable_sorted(s).len() == s.len(),
    decreases s.len(),
{
    if s.len() == 0 {
    } else {
        let x = s.last();
        let front = s.drop_last();
        let rest = stable_sorted(front);
        lemma_stable_sorted(front);
        lemma_slot_for(rest, x.0);
        let at = slot_for(rest, x.0);
        let out = rest.insert(at, x);
        assert(out == rest.take(at).push(x) + rest.skip(at));
        assert(rest == rest.take(at) + rest.skip(at));
        assert(s == front.push(x));
        assert forall|k: usize| #[trigger] keyed(out, k) == keyed(s, k) by {
            lemma_keyed_add(rest.take(at).push(x), rest.skip(at), k);
            lemma_keyed_add(rest.take(at), rest.skip(at), k);
            lemma_keyed_push(rest.take(at), x, k);
            lemma_keyed_push(front, x, k);
            assert(keyed(rest, k) == keyed(front, k));
            if x.0 == k {
                lemma_keyed_none(rest.skip(at), k);
                assert(keyed(rest.take(at), k) + Seq::<(usize, T)>::empty() == keyed(
                    rest.take(at),
                    k,
                ));
                assert(keyed(rest.take(at), k).push(x) + Seq::<(usize, T)>::empty() == keyed(
                    rest.take(at),
                    k,
                ).push(x));
            }
        }
    }
}

proof fn lemma_keyed_first<T>(s: Seq<(usize, T)>, k: usize)
    requires
        s.len() > 0,
    ensures
        keyed(s, k) == keyed(seq![s[0]], k) + keyed(s.drop_first(), k),
        keyed(seq![s[0]], k) == if s[0].0 == k {
            seq![s[0]]
        } else {
            Seq::empty()
        },
{
    assert(s == seq![s[0]] + s.drop_first());
    lemma_keyed_add(seq![s[0]], s.drop_first(), k);
    lemma_keyed_push(Seq::empty(), s[0], k);
    assert(Seq::<(usize, T)>::empty().push(s[0]) == seq![s[0]]);
    lemma_keyed_none(Seq::<(usize, T)>::empty(), k);
}

proof fn lemma_least_key_first<T>(a: Seq<(usize, T)>, b: Seq<(usize, T)>)
    requires
        ascending(a),
        a.len() > 0,
        b.len() > 0,
        forall|k: usize| #[trigger] keyed(a, k) == keyed(b, k),
    ensures
        a[0].0 <= b[0].0,
{
    let k = b[0].0;
    lemma_keyed_holds(b, 0);
    assert(keyed(a, k) == keyed(b, k));
    lemma_keyed_item(a, k, 0);
    let e = keyed(a, k)[0];
    let i = choose|i: int| 0 <= i < a.len() && a[i] == e;
    assert(a[0].0 <= a[i].0);
}

/// Two ascending sequences that agree under every key are one sequence.
pub proof fn lemma_ascending_determined<T>(a: Seq<(usize, T)>, b: Seq<(usize, T)>)
    requires
        ascending(a),
        ascending(b),
        forall|k: usize| #[trigger] keyed(a, k) == keyed(b, k),
    ensures
        a == b,
    decreases a.len(),
{
    if a.len() == 0 {
        if b.len() > 0 {
            lemma_keyed_holds(b, 0);
            lemma_keyed_none(a, b[0].0);
            assert(keyed(a, b[0].0) == keyed(b, b[0].0));
        }
        assert(a == b);
    } else {
        let k = a[0].0;
        lemma_keyed_holds(a, 0);
        assert(keyed(a, k) == keyed(b, k));
        if b.len() == 0 {
            lemma_keyed_none(b, k);
        }
        lemma_least_key_first(a, b);
        lemma_least_key_first(b, a);
        lemma_keyed_first(a, k);
        lemma_keyed_first(b, k);
        assert(keyed(a, k)[0] == a[0]);
        assert(keyed(b, k)[0] == b[0]);
        assert(a[0] == b[0]);
        let a1 = a.drop_first();
        let b1 = b.drop_first();
        assert forall|j: usize| #[trigger] keyed(a1, j) == keyed(b1, j) by {
            lemma_keyed_first(a, j);
            lemma_keyed_first(b, j);
            assert(keyed(a, j) == keyed(b, j));
            let head = keyed(seq![a[0]], j);
            assert(keyed(a1, j) == (head + keyed(a1, j)).skip(head.len() as int));
            assert(keyed(b1, j) == (head + keyed(b1, j)).skip(head.len() as int));
        }
        lemma_ascending_determined(a1, b1);
        assert(a == seq![a[0]] + a1);
        assert(b == seq![b[0]] + b1);
    }
}

/// A stable sort of `items` can only be `stable_sorted(items)`.
pub proof fn lemma_stable_sort_unique<T>(out: Seq<(usize, T)>, items: Seq<(usize, T)>)
    requires
        is_stable_sort(out, items),
    ensures
        out == stable_sorted(items),
{
    lemma_stable_sorted(items);
    let s = stable_sorted(items);
    assert forall|k: usize| #[trigger] keyed(out, k) == keyed(s, k) by {
        assert(keyed(out, k) == keyed(items, k));
        assert(keyed(s, k) == keyed(items, k));
    }
    lemma_ascending_determined(out, s);
}

/// Every item of a stable sort is one of the items sorted.
pub proof fn lemma_sorted_item<T>(out: Seq<(usize, T)>, items: Seq<(usize, T)>, i: int)
    requires
        is_stable_sort(out, items),
        0 <= i < out.len(),
    ensures
        items.contains(out[i]),
{
    let k = out[i].0;
    out.lemma_filter_contains(has_key::<T>(k), i);
    assert(keyed(out, k) == keyed(items, k));
    items.lemma_filter_contains_rev(has_key::<T>(k), out[i]);
}

/// Every item sorted is an item of the stable sort.
pub proof fn lemma_sorted_keeps_item<T>(out: Seq<(usize, T)>, items: Seq<(usize, T)>, i: int)
    requires
        is_stable_sort(out, items),
        0 <= i < items.len(),
    ensures
        out.contains(items[i]),
{
    let k = items[i].0;
    items.lemma_filter_contains(has_key::<T>(k), i);
    assert(keyed(out, k) == keyed(items, k));
    out.lemma_filter_contains_rev(has_key::<T>(k), items[i]);
}

proof fn lemma_relabel_keyed<T, U>(s: Seq<(usize, T)>, f: spec_fn(T) -> U, k: usize)
    ensures
        keyed(relabel(s, f), k) == relabel(keyed(s, k), f),
    decreases s.len(),
{
    if s.len() == 0 {
        lemma_keyed_none(s, k);
        lemma_keyed_none(relabel(s, f), k);
        assert(relabel(Seq::<(usize, T)>::empty(), f) == Seq::<(usize, U)>::empty());
    } else {
        let x = s.last();
        let front = s.drop_last();
        lemma_relabel_keyed(front, f, k);
        assert(s == front.push(x));
        assert(relabel(s, f) == relabel(front, f).push((x.0, f(x.1))));
        lemma_keyed_push(front, x, k);
        lemma_keyed_push(relabel(front, f), (x.0, f(x.1)), k);
        if x.0 == k {
            assert(relabel(keyed(front, k).push(x), f) == relabel(keyed(front, k), f).push(
                (x.0, f(x.1)),
            ));
        }
    }
}

/// Relabelling the payloads of a stable sort gives the stable sort of the
/// relabelled items.
pub proof fn lemma_relabel_sorted<T, U>(
    out: Seq<(usize, T)>,
    items: Seq<(usize, T)>,
    f: spec_fn(T) -> U,
)
    requires
        is_stable_sort(out, items),
    ensures
        relabel(out, f) == stable_sorted(relabel(items, f)),
{
    assert forall|k: usize| #[trigger]
        keyed(relabel(out, f), k) == keyed(relabel(items, f), k) by {
        lemma_relabel_keyed(out, f, k);
        lemma_relabel_keyed(items, f, k);
        assert(keyed(out, k) == keyed(items, k));
    }
    lemma_stable_sort_unique(relabel(out, f), relabel(items, f));
}

} // verus!
