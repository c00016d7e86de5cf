//! The lineage of the lines of a listing: the path of parent lines that leads
//! from the first line to a line, and the proof that the graph of a
//! well-formed listing links exactly each line to its parent line.

use vstd::prelude::*;
use crate::census::{lemma_parent_line, line_above, parent_line, well_formed};
use crate::dependency_tree::{graph_of, read_entries, read_entry, with_name, Reading};
use crate::parse_cargo_tree_output::FlatEntryView;

verus! {

/// The lines that lead to the line `i`: the first line, then parent line
/// after parent line, down to `i` itself.
pub open spec fn path_to(e: Seq<FlatEntryView>, i: int) -> Seq<int>
    decreases i,
{
    if i <= 0 {
        seq![0int]
    } else {
        let p = parent_line(e, i);
        if 0 <= p < i {
            path_to(e, p).push(i)
        } else {
            seq![i]
        }
    }
}

/// The names of the lines `lines`.
pub open spec fn names_of(e: Seq<FlatEntryView>, lines: Seq<int>) -> Seq<Seq<char>> {
    lines.map_values(|a: int| e[a].name)
}

/// Whether the line `j` names `child` and its parent line names `parent`.
pub open spec fn is_link(
    e: Seq<FlatEntryView>,
    j: int,
    parent: Seq<char>,
    child: Seq<char>,
) -> bool {
    e[j].name == child && e[parent_line(e, j)].name == parent
}

/// Whether one of the lines after the first and before `upto` names `child`
/// under a parent line that names `parent`.
pub open spec fn linked(
    e: Seq<FlatEntryView>,
    upto: int,
    parent: Seq<char>,
    child: Seq<char>,
) -> bool {
    exists|j: int| 0 < j < upto && #[trigger] is_link(e, j, parent, child)
}

/// Whether one of the lines before `upto` names `name`.
pub open spec fn named(e: Seq<FlatEntryView>, upto: int, name: Seq<char>) -> bool {
    exists|j: int| 0 <= j < upto && (#[trigger] e[j]).name == name
}

/// Whether a listing is rooted and free of loops: it is well-formed, its first
/// line lies at depth 0, and no line names a component that one of the lines
/// leading to it names.
pub open spec fn rooted(e: Seq<FlatEntryView>) -> bool {
    &&& well_formed(e)
    &&& e[0].depth == 0
    &&& forall|i: int|
        0 < i < e.len() ==> !names_of(e, path_to(e, parent_line(e, i))).contains(
            (#[trigger] e[i]).name,
        )
}

/// The path to a line holds one line for each level down to the line, each at
/// its level, and every line between one of them and the end of the path lies
/// deeper than it; a part of the path from its start is the path to the line
/// that ends the part.
proof fn lemma_path_to(e: Seq<FlatEntryView>, j: int)
    requires
        well_formed(e),
        e[0].depth == 0,
        0 <= j < e.len(),
    ensures
        path_to(e, j).len() == e[j].depth + 1,
        path_to(e, j).last() == j,
        forall|l: int|
            0 <= l <= e[j].depth ==> {
                let a = #[trigger] path_to(e, j)[l];
                &&& 0 <= a <= j
                &&& e[a].depth == l
                &&& path_to(e, j).take(l + 1) == path_to(e, a)
                &&& forall|k: int| a < k <= j ==> (#[trigger] e[k]).depth > l
            },
    decreases j,
{
    if j == 0 {
        assert(path_to(e, 0).take(1) == path_to(e, 0));
    } else {
        lemma_parent_line(e, j);
        let p = parent_line(e, j);
        lemma_path_to(e, p);
        let whole = path_to(e, j);
        assert(whole == path_to(e, p).push(j));
        assert forall|l: int| 0 <= l <= e[j].depth implies {
            let a = #[trigger] whole[l];
            &&& 0 <= a <= j
            &&& e[a].depth == l
            &&& whole.take(l + 1) == path_to(e, a)
            &&& forall|k: int| a < k <= j ==> (#[trigger] e[k]).depth > l
        } by {
            if l == e[j].depth {
                assert(whole.take(l + 1) == whole);
            } else {
                let a = path_to(e, p)[l];
                assert(whole[l] == a);
                assert(whole.take(l + 1) == path_to(e, p).take(l + 1));
                assert forall|k: int| a < k <= j implies (#[trigger] e[k]).depth > l by {
                    if k <= p {
                    } else if k < j {
                        assert(e[k].depth >= e[j].depth);
                    }
                }
            }
        }
    }
}

proof fn lemma_line_above_is(e: Seq<FlatEntryView>, i: int, j: int, a: int)
    requires
        0 <= a <= j,
        e[a].depth + 1 == e[i].depth,
        forall|k: int| a < k <= j ==> (#[trigger] e[k]).depth + 1 != e[i].depth,
    ensures
        line_above(e, i, j) == a,
    decreases j - a,
{
    if j > a {
        assert(e[j].depth + 1 != e[i].depth);
        lemma_line_above_is(e, i, j - 1, a);
    }
}

/// The path to the parent line of a line is the path to the line before it,
/// cut to the depth of the line.
proof fn lemma_path_is_cut(e: Seq<FlatEntryView>, i: int)
    requires
        well_formed(e),
        e[0].depth == 0,
        0 < i < e.len(),
    ensures
        1 <= e[i].depth <= path_to(e, i - 1).len(),
        path_to(e, i - 1).take(e[i].depth as int) == path_to(e, parent_line(e, i)),
        path_to(e, i) == path_to(e, parent_line(e, i)).push(i),
        0 <= parent_line(e, i) < i,
{
    lemma_parent_line(e, i);
    lemma_path_to(e, i - 1);
    let d = e[i].depth as int;
    assert(e[i].depth > e[0].depth);
    assert(e[i].depth <= e[i - 1].depth + 1);
    let a = path_to(e, i - 1)[d - 1];
    assert forall|k: int| a < k <= i - 1 implies (#[trigger] e[k]).depth + 1 != e[i].depth by {
        assert(e[k].depth > d - 1);
    }
    lemma_line_above_is(e, i, i - 1, a);
}

/// What the graph holds after the first `k` lines of a rooted listing.
pub open spec fn read_so_far(e: Seq<FlatEntryView>, k: int, r: Reading) -> bool {
    &&& r.stack == names_of(e, path_to(e, k - 1))
    &&& forall|n: Seq<char>| r.children.dom().contains(n) <==> named(e, k, n)
    &&& forall|n: Seq<char>, c: Seq<char>|
        r.children.dom().contains(n) ==> (r.children[n].contains(c) <==> linked(e, k, n, c))
}

proof fn lemma_read_first(e: Seq<FlatEntryView>)
    requires
        rooted(e),
    ensures
        read_so_far(e, 1, read_entries(e.take(1))),
{
    let r = read_entries(e.take(1));
    assert(e.take(1).drop_last() == Seq::<FlatEntryView>::empty());
    assert(e.take(1).last() == e[0]);
    let start = Reading { children: Map::empty(), stack: Seq::empty() };
    assert(read_entries(e.take(1).drop_last()) == start);
    assert(r == read_entry(start, e[0]));
    assert(r.stack == Seq::<Seq<char>>::empty().push(e[0].name));
    assert(r.stack == names_of(e, path_to(e, 0)));
    assert(r.children == Map::<Seq<char>, Seq<Seq<char>>>::empty().insert(e[0].name, Seq::empty()));
    assert forall|n: Seq<char>| r.children.dom().contains(n) <==> named(e, 1, n) by {
        if n == e[0].name {
            assert(e[0].name == n);
        }
    }
    assert forall|n: Seq<char>, c: Seq<char>|
        r.children.dom().contains(n) implies (r.children[n].contains(c) <==> linked(
        e,
        1,
        n,
        c,
    )) by {
        assert(r.children[n] == Seq::<Seq<char>>::empty());
    }
}

proof fn lemma_with_name(kids: Seq<Seq<char>>, name: Seq<char>, c: Seq<char>)
    ensures
        with_name(kids, name).contains(c) <==> kids.contains(c) || c == name,
{
    if !kids.contains(name) {
        let grown = kids.push(name);
        if grown.contains(c) {
            let at = choose|at: int| 0 <= at < grown.len() && grown[at] == c;
            if at < kids.len() {
                assert(kids[at] == c);
            }
        }
        if kids.contains(c) {
            let at = choose|at: int| 0 <= at < kids.len() && kids[at] == c;
            assert(grown[at] == c);
        }
        if c == name {
            assert(grown[kids.len() as int] == c);
        }
    }
}

/// The components after one more entry, given the components before it:
/// the entry's component is known, and linked to its parent's.
pub open spec fn children_after(
    children: Map<Seq<char>, Seq<Seq<char>>>,
    parent: Seq<char>,
    name: Seq<char>,
) -> Map<Seq<char>, Seq<Seq<char>>> {
    let known = if children.dom().contains(name) {
        children
    } else {
        children.insert(name, Seq::empty())
    };
    known.insert(parent, with_name(known[parent], name))
}

proof fn lemma_next_shape(e: Seq<FlatEntryView>, k: int, r: Reading)
    requires
        rooted(e),
        1 <= k < e.len(),
        r.stack == names_of(e, path_to(e, k - 1)),
    ensures
        0 <= parent_line(e, k) < k,
        e[parent_line(e, k)].name != e[k].name,
        read_entry(r, e[k]).stack == names_of(e, path_to(e, k)),
        read_entry(r, e[k]).children == children_after(
            r.children,
            e[parent_line(e, k)].name,
            e[k].name,
        ),
{
    lemma_path_is_cut(e, k);
    let p = parent_line(e, k);
    lemma_path_to(e, p);
    let d = e[k].depth as int;
    let name = e[k].name;
    let pn = e[p].name;
    let before = path_to(e, k - 1);
    let stack = if d < r.stack.len() {
        r.stack.take(d)
    } else {
        r.stack
    };
    assert(r.stack.len() == before.len());
    assert(stack == names_of(e, path_to(e, p))) by {
        if d < r.stack.len() {
            assert(r.stack.take(d) == names_of(e, before.take(d)));
        } else {
            assert(before.take(d) == before);
        }
    }
    assert(!names_of(e, path_to(e, parent_line(e, k))).contains(e[k].name));
    assert(stack.len() == d);
    assert(stack.last() == pn);
    assert(stack[d - 1] == pn);
    assert(stack.push(name) == names_of(e, path_to(e, k)));
}

proof fn lemma_next_names(
    e: Seq<FlatEntryView>,
    k: int,
    p: int,
    before: Map<Seq<char>, Seq<Seq<char>>>,
    after: Map<Seq<char>, Seq<Seq<char>>>,
)
    requires
        0 <= p < k < e.len(),
        after == children_after(before, e[p].name, e[k].name),
        forall|n: Seq<char>| before.dom().contains(n) <==> named(e, k, n),
    ensures
        forall|n: Seq<char>| after.dom().contains(n) <==> named(e, k + 1, n),
{
    assert forall|n: Seq<char>| after.dom().contains(n) <==> named(e, k + 1, n) by {
        if named(e, k + 1, n) {
            let j = choose|j: int| 0 <= j < k + 1 && (#[trigger] e[j]).name == n;
            if j < k {
                assert(named(e, k, n));
            }
        }
        if named(e, k, n) {
            let j = choose|j: int| 0 <= j < k && (#[trigger] e[j]).name == n;
            assert(e[j].name == n);
            assert(named(e, k + 1, n));
        }
        if n == e[k].name {
            assert(e[k].name == n);
            assert(named(e, k + 1, n));
        }
        if n == e[p].name {
            assert(e[p].name == n);
            assert(named(e, k + 1, n));
        }
    }
}

proof fn lemma_linked_grows(e: Seq<FlatEntryView>, k: int, n: Seq<char>, c: Seq<char>)
    ensures
        linked(e, k + 1, n, c) <==> linked(e, k, n, c) || (k > 0 && is_link(e, k, n, c)),
{
    if linked(e, k + 1, n, c) {
        let j = choose|j: int| 0 < j < k + 1 && #[trigger] is_link(e, j, n, c);
        if j < k {
            assert(linked(e, k, n, c));
        }
    }
    if linked(e, k, n, c) {
        let j = choose|j: int| 0 < j < k && #[trigger] is_link(e, j, n, c);
        assert(is_link(e, j, n, c));
        assert(linked(e, k + 1, n, c));
    }
    if k > 0 && is_link(e, k, n, c) {
        assert(linked(e, k + 1, n, c));
    }
}

proof fn lemma_next_links(
    e: Seq<FlatEntryView>,
    k: int,
    before: Map<Seq<char>, Seq<Seq<char>>>,
    after: Map<Seq<char>, Seq<Seq<char>>>,
    n: Seq<char>,
    c: Seq<char>,
)
    requires
        0 <= parent_line(e, k) < k < e.len(),
        e[parent_line(e, k)].name != e[k].name,
        after == children_after(before, e[parent_line(e, k)].name, e[k].name),
        before.dom().contains(e[parent_line(e, k)].name),
        !before.dom().contains(n) ==> !linked(e, k, n, c),
        before.dom().contains(n) ==> (before[n].contains(c) <==> linked(e, k, n, c)),
        after.dom().contains(n),
    ensures
        after[n].contains(c) <==> linked(e, k + 1, n, c),
{
    let p = parent_line(e, k);
    let name = e[k].name;
    let pn = e[p].name;
    lemma_linked_grows(e, k, n, c);
    if n == pn {
        lemma_with_name(before[pn], name, c);
    } else if before.dom().contains(n) {
        assert(after[n] == before[n]);
    } else {
        assert(n == name);
        assert(after[n] == Seq::<Seq<char>>::empty());
    }
}

proof fn lemma_read_next(e: Seq<FlatEntryView>, k: int, r: Reading)
    requires
        rooted(e),
        1 <= k < e.len(),
        read_so_far(e, k, r),
    ensures
        read_so_far(e, k + 1, read_entry(r, e[k])),
{
    lemma_next_shape(e, k, r);
    let p = parent_line(e, k);
    let next = read_entry(r, e[k]);
    lemma_next_names(e, k, p, r.children, next.children);
    assert(named(e, k, e[p].name)) by {
        assert(e[p].name == e[p].name);
    }
    assert forall|n: Seq<char>, c: Seq<char>|
        next.children.dom().contains(n) implies (next.children[n].contains(c) <==> linked(
        e,
        k + 1,
        n,
        c,
    )) by {
        if !r.children.dom().contains(n) && linked(e, k, n, c) {
            let j = choose|j: int| 0 < j < k && #[trigger] is_link(e, j, n, c);
            lemma_parent_line(e, j);
            assert(e[parent_line(e, j)].name == n);
            assert(named(e, k, n));
        }
        lemma_next_links(e, k, r.children, next.children, n, c);
    }
}

proof fn lemma_read_all(e: Seq<FlatEntryView>, k: int)
    requires
        rooted(e),
        1 <= k <= e.len(),
    ensures
        read_so_far(e, k, read_entries(e.take(k))),
    decreases k,
{
    if k == 1 {
        lemma_read_first(e);
    } else {
        lemma_read_all(e, k - 1);
        assert(e.take(k).drop_last() == e.take(k - 1));
        assert(e.take(k).last() == e[k - 1]);
        lemma_read_next(e, k - 1, read_entries(e.take(k - 1)));
    }
}

/// The graph of a rooted listing has the first line's component as its root,
/// the components that the lines name as its components, and as the
/// dependencies of a component exactly the components named by the lines
/// whose parent line names it.
pub proof fn lemma_graph_links_parent_lines(e: Seq<FlatEntryView>)
    requires
        rooted(e),
    ensures
        graph_of(e).root == e[0].name,
        forall|n: Seq<char>|
            graph_of(e).children.dom().contains(n) <==> named(e, e.len() as int, n),
        forall|n: Seq<char>, c: Seq<char>|
            graph_of(e).children.dom().contains(n) ==> (graph_of(e).children[n].contains(c)
                <==> linked(e, e.len() as int, n, c)),
{
    lemma_read_all(e, e.len() as int);
    assert(e.take(e.len() as int) == e);
    lemma_path_to(e, e.len() - 1);
    let last = path_to(e, e.len() - 1);
    let top = last[0];
    if top > 0 {
        assert(e[top].depth > e[0].depth);
    }
}

} // verus!
