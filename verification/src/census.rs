//! The census of a tree: which names stand in it, how often and how deep, and
//! the proof that folding a well-formed listing loses and moves nothing.

use vstd::prelude::*;
use vstd::multiset::Multiset;
use crate::parse_cargo_tree_output::{
    child_pairs, descendants, lemma_span_end, span_end, subtree, FlatEntryView, TreeView,
};
use crate::sorting::{
    lemma_slot_for, lemma_sorted_keeps_item, lemma_stable_sorted, slot_for, stable_sorted,
    unkeyed,
};

verus! {

/// A name together with a depth.
pub type Placed = (Seq<char>, nat);

/// The names of `t` with their distance from the root of `t`, counted from
/// `depth`, each as often as it occurs.
pub open spec fn tree_bag(t: TreeView, depth: nat) -> Multiset<Placed>
    decreases t,
{
    forest_bag(t.children, depth + 1).insert((t.name, depth))
}

/// The names of the trees of `ts`, whose roots stand at `depth`.
pub open spec fn forest_bag(ts: Seq<TreeView>, depth: nat) -> Multiset<Placed>
    decreases ts,
{
    if ts.len() == 0 {
        Multiset::empty()
    } else {
        forest_bag(ts.drop_last(), depth).add(tree_bag(ts.last(), depth))
    }
}

/// The names of the entries `e[from..to]` with their depths, counted from the
/// depth `base`.
pub open spec fn listing_bag(e: Seq<FlatEntryView>, base: nat, from: int, to: int) -> Multiset<
    Placed,
>
    decreases to - from,
{
    if from >= to {
        Multiset::empty()
    } else {
        listing_bag(e, base, from, to - 1).insert(
            (e[to - 1].name, (e[to - 1].depth - base) as nat),
        )
    }
}

/// Whether no entry from `from` up to `to` lies more than one level deeper
/// than the entry before it.
pub open spec fn stepwise(e: Seq<FlatEntryView>, from: int, to: int) -> bool {
    forall|i: int| from < i < to ==> (#[trigger] e[i]).depth <= e[i - 1].depth + 1
}

/// Whether a listing is well-formed: it begins with its root, every other
/// entry lies below the root, and none lies more than one level deeper than
/// the entry before it.
pub open spec fn well_formed(e: Seq<FlatEntryView>) -> bool {
    &&& e.len() > 0
    &&& forall|i: int| 0 < i < e.len() ==> (#[trigger] e[i]).depth > e[0].depth
    &&& stepwise(e, 0, e.len() as int)
}

proof fn lemma_forest_bag_add(a: Seq<TreeView>, b: Seq<TreeView>, depth: nat)
    ensures
        forest_bag(a + b, depth) == forest_bag(a, depth).add(forest_bag(b, depth)),
    decreases b.len(),
{
    if b.len() == 0 {
        assert(a + b == a);
        assert(forest_bag(a, depth).add(Multiset::empty()) == forest_bag(a, depth));
    } else {
        lemma_forest_bag_add(a, b.drop_last(), depth);
        assert((a + b).drop_last() == a + b.drop_last());
        assert(forest_bag(a, depth).add(forest_bag(b.drop_last(), depth)).add(
            tree_bag(b.last(), depth),
        ) == forest_bag(a, depth).add(
            forest_bag(b.drop_last(), depth).add(tree_bag(b.last(), depth)),
        ));
    }
}

proof fn lemma_forest_bag_sorted(s: Seq<(usize, TreeView)>, depth: nat)
    ensures
        forest_bag(unkeyed(stable_sorted(s)), depth) == forest_bag(unkeyed(s), depth),
    decreases s.len(),
{
    if s.len() > 0 {
        let x = s.last();
        let front = s.drop_last();
        let rest = stable_sorted(front);
        lemma_forest_bag_sorted(front, depth);
        lemma_stable_sorted(front);
        lemma_slot_for(rest, x.0);
        let at = slot_for(rest, x.0);
        let trees = unkeyed(rest);
        let head = trees.take(at);
        let tail = trees.skip(at);
        assert(unkeyed(rest.insert(at, x)) == head.push(x.1) + tail);
        assert(trees == head + tail);
        lemma_forest_bag_add(head.push(x.1), tail, depth);
        lemma_forest_bag_add(head, tail, depth);
        assert(head.push(x.1).drop_last() == head);
        assert(unkeyed(s).drop_last() == unkeyed(front));
        assert(forest_bag(head, depth).add(tree_bag(x.1, depth)).add(forest_bag(tail, depth))
            == forest_bag(head, depth).add(forest_bag(tail, depth)).add(tree_bag(x.1, depth)));
    } else {
        assert(stable_sorted(s) == s);
    }
}

proof fn lemma_listing_bag_split(e: Seq<FlatEntryView>, base: nat, from: int, mid: int, to: int)
    requires
        from <= mid <= to,
    ensures
        listing_bag(e, base, from, to) == listing_bag(e, base, from, mid).add(
            listing_bag(e, base, mid, to),
        ),
    decreases to - mid,
{
    if mid == to {
        assert(listing_bag(e, base, from, mid).add(Multiset::empty()) == listing_bag(
            e,
            base,
            from,
            mid,
        ));
    } else {
        lemma_listing_bag_split(e, base, from, mid, to - 1);
        let last = (e[to - 1].name, (e[to - 1].depth - base) as nat);
        assert(listing_bag(e, base, from, mid).add(listing_bag(e, base, mid, to - 1)).insert(last)
            == listing_bag(e, base, from, mid).add(
            listing_bag(e, base, mid, to - 1).insert(last),
        ));
    }
}

/// Entries that lie more than one level below `root` are no direct children
/// of it.
proof fn lemma_deeper_entries_skipped(e: Seq<FlatEntryView>, root: int, from: int, to: int)
    requires
        0 <= root < from <= to <= e.len(),
        forall|i: int| from <= i < to ==> (#[trigger] e[i]).depth > e[root].depth + 1,
    ensures
        child_pairs(e, root, from) == child_pairs(e, root, to),
    decreases to - from,
{
    if from < to {
        lemma_deeper_entries_skipped(e, root, from + 1, to);
    }
}

proof fn lemma_subtree_bag(e: Seq<FlatEntryView>, base: nat, root: int)
    requires
        0 <= root < e.len(),
        base <= e[root].depth,
        stepwise(e, root, span_end(e, root, root + 1)),
    ensures
        tree_bag(subtree(e, root), (e[root].depth - base) as nat) == listing_bag(
            e,
            base,
            root,
            span_end(e, root, root + 1),
        ),
    decreases e.len() - root, e.len() + 1,
{
    let end = span_end(e, root, root + 1);
    let depth = (e[root].depth - base) as nat;
    let pairs = child_pairs(e, root, root + 1);
    lemma_span_end(e, root, root + 1);
    lemma_forest_bag_sorted(pairs, depth + 1);
    if root + 1 < end {
        assert(e[root + 1].depth > e[root].depth);
    }
    lemma_children_bag(e, base, root, root + 1);
    lemma_listing_bag_split(e, base, root, root + 1, end);
    assert(listing_bag(e, base, root, root) == Multiset::<Placed>::empty());
    assert(listing_bag(e, base, root, root + 1) == Multiset::<Placed>::empty().insert(
        (e[root].name, depth),
    ));
    assert(Multiset::<Placed>::empty().insert((e[root].name, depth)).add(
        listing_bag(e, base, root + 1, end),
    ) == listing_bag(e, base, root + 1, end).insert((e[root].name, depth)));
}

proof fn lemma_children_bag(e: Seq<FlatEntryView>, base: nat, root: int, j: int)
    requires
        0 <= root < j <= span_end(e, root, root + 1),
        root < e.len(),
        base <= e[root].depth,
        stepwise(e, root, span_end(e, root, root + 1)),
        j < span_end(e, root, root + 1) ==> e[j].depth == e[root].depth + 1,
    ensures
        forest_bag(unkeyed(child_pairs(e, root, j)), (e[root].depth + 1 - base) as nat)
            == listing_bag(e, base, j, span_end(e, root, root + 1)),
    decreases e.len() - root, e.len() - j,
{
    let end = span_end(e, root, root + 1);
    let depth = (e[root].depth + 1 - base) as nat;
    lemma_span_end(e, root, root + 1);
    if j == end {
        assert(child_pairs(e, root, j) == Seq::<(usize, TreeView)>::empty());
        assert(unkeyed(child_pairs(e, root, j)) == Seq::<TreeView>::empty());
    } else {
        let next = span_end(e, j, j + 1);
        lemma_span_end(e, j, j + 1);
        if end < e.len() && next > end {
            assert(e[end].depth > e[j].depth);
        }
        assert(next <= end);
        assert(stepwise(e, j, next));
        lemma_subtree_bag(e, base, j);
        lemma_deeper_entries_skipped(e, root, j + 1, next);
        if next < end {
            assert(e[next].depth > e[root].depth);
        }
        lemma_children_bag(e, base, root, next);
        let child = subtree(e, j);
        let rest = child_pairs(e, root, next);
        assert(child_pairs(e, root, j) == seq![(
            crate::parse_cargo_tree_output::descendants(child) as usize,
            child,
        )] + rest);
        assert(unkeyed(child_pairs(e, root, j)) == seq![child] + unkeyed(rest));
        lemma_forest_bag_add(seq![child], unkeyed(rest), depth);
        assert(seq![child].drop_last() == Seq::<TreeView>::empty());
        assert(seq![child].last() == child);
        assert(forest_bag(Seq::<TreeView>::empty(), depth) == Multiset::<Placed>::empty());
        assert(forest_bag(seq![child], depth) == Multiset::<Placed>::empty().add(
            tree_bag(child, depth),
        ));
        assert(Multiset::<Placed>::empty().add(tree_bag(child, depth)) == tree_bag(
            child,
            depth,
        ));
        lemma_listing_bag_split(e, base, j, next, end);
    }
}

/// The tree of a well-formed listing holds every entry of the listing, as
/// often as the listing names it, and each at the distance from the root that
/// the listing gives it: nothing is lost, added or moved.
pub proof fn lemma_tree_keeps_listing(e: Seq<FlatEntryView>)
    requires
        well_formed(e),
    ensures
        tree_bag(subtree(e, 0), 0) == listing_bag(e, e[0].depth, 0, e.len() as int),
{
    lemma_span_end(e, 0, 1);
    let end = span_end(e, 0, 1);
    if end < e.len() {
        assert(e[end].depth > e[0].depth);
    }
    lemma_subtree_bag(e, e[0].depth, 0);
}

/// The index of the nearest entry at or before `j` that lies one level above
/// the entry `i`, or -1 where there is none.
pub open spec fn line_above(e: Seq<FlatEntryView>, i: int, j: int) -> int
    decreases j + 1,
{
    if j < 0 {
        -1
    } else if e[j].depth + 1 == e[i].depth {
        j
    } else {
        line_above(e, i, j - 1)
    }
}

/// The parent line of the entry `i`: the nearest earlier entry one level
/// above it.
pub open spec fn parent_line(e: Seq<FlatEntryView>, i: int) -> int {
    line_above(e, i, i - 1)
}

proof fn lemma_line_above(e: Seq<FlatEntryView>, i: int, j: int)
    requires
        well_formed(e),
        0 <= j < i < e.len(),
        forall|k: int| j < k < i ==> (#[trigger] e[k]).depth >= e[i].depth,
    ensures
        0 <= line_above(e, i, j) <= j,
        e[line_above(e, i, j)].depth + 1 == e[i].depth,
        forall|k: int| line_above(e, i, j) < k < i ==> (#[trigger] e[k]).depth >= e[i].depth,
    decreases j,
{
    assert(e[j + 1].depth <= e[j].depth + 1);
    assert(e[j + 1].depth >= e[i].depth);
    if e[j].depth + 1 != e[i].depth {
        if j == 0 {
            assert(e[i].depth > e[0].depth);
        } else {
            lemma_line_above(e, i, j - 1);
        }
    }
}

/// In a well-formed listing every entry but the first has a parent line, and
/// all the entries between the two lie at least as deep as the entry.
pub proof fn lemma_parent_line(e: Seq<FlatEntryView>, i: int)
    requires
        well_formed(e),
        0 < i < e.len(),
    ensures
        0 <= parent_line(e, i) < i,
        e[parent_line(e, i)].depth + 1 == e[i].depth,
        forall|k: int| parent_line(e, i) < k < i ==> (#[trigger] e[k]).depth >= e[i].depth,
{
    lemma_line_above(e, i, i - 1);
}

proof fn lemma_direct_child_is_paired(e: Seq<FlatEntryView>, root: int, j: int, i: int)
    requires
        0 <= root < j <= i < e.len(),
        e[i].depth == e[root].depth + 1,
        forall|k: int| j <= k <= i ==> (#[trigger] e[k]).depth > e[root].depth,
    ensures
        child_pairs(e, root, j).contains((descendants(subtree(e, i)) as usize, subtree(e, i))),
    decreases i - j,
{
    let pair = (descendants(subtree(e, i)) as usize, subtree(e, i));
    assert(e[j].depth > e[root].depth);
    if j == i {
        assert(child_pairs(e, root, j)[0] == pair);
    } else {
        lemma_direct_child_is_paired(e, root, j + 1, i);
        let rest = child_pairs(e, root, j + 1);
        let at = choose|at: int| 0 <= at < rest.len() && rest[at] == pair;
        if e[j].depth == e[root].depth + 1 {
            assert(child_pairs(e, root, j)[at + 1] == pair);
        }
    }
}

/// In the tree of a well-formed listing, the tree of every entry but the
/// first is a child of the tree of its parent line: the nearest earlier
/// entry one level above it.
pub proof fn lemma_child_of_parent_line(e: Seq<FlatEntryView>, i: int)
    requires
        well_formed(e),
        0 < i < e.len(),
    ensures
        0 <= parent_line(e, i) < i,
        e[parent_line(e, i)].depth + 1 == e[i].depth,
        subtree(e, parent_line(e, i)).children.contains(subtree(e, i)),
{
    lemma_parent_line(e, i);
    let p = parent_line(e, i);
    let pair = (descendants(subtree(e, i)) as usize, subtree(e, i));
    lemma_direct_child_is_paired(e, p, p + 1, i);
    let pairs = child_pairs(e, p, p + 1);
    let at = choose|at: int| 0 <= at < pairs.len() && pairs[at] == pair;
    lemma_stable_sorted(pairs);
    lemma_sorted_keeps_item(stable_sorted(pairs), pairs, at);
    let sorted = stable_sorted(pairs);
    let to = choose|to: int| 0 <= to < sorted.len() && sorted[to] == pair;
    assert(unkeyed(sorted)[to] == subtree(e, i));
}

} // verus!
