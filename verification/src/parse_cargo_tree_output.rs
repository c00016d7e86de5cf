//! The depth-prefixed dependency listing: from text to flat entries, and from
//! flat entries to a tree.

use vstd::prelude::*;
use crate::drawing::Color;
use crate::identity::{crate_name, crate_name_in};
use crate::sorting::{
    lemma_relabel_sorted, lemma_slot_for, lemma_sorted_item, lemma_stable_sorted, relabel,
    slot_for, sort_by_key, stable_sorted, unkeyed,
};
use crate::text::{
    chars_of, decimal, find_class, find_in, lemma_find_class_bounds, read_decimal, skip_class,
    skip_in, CharClass,
};

verus! {

/// Why a listing gives no tree.
#[derive(Debug, Clone, Copy, PartialEq, Eq, Structural)]
pub enum ParseError {
    /// The listing is empty, or its first line is no entry.
    BadFirstLine,
    /// The depth of some line does not fit the machine's word.
    DepthOverflow,
}

/// One line of the listing: how deep the component sits, and its identity.
#[derive(Debug, PartialEq, Eq)]
pub struct FlatEntry {
    pub depth: usize,
    pub name: String,
}

/// What a `FlatEntry` stands for.
pub struct FlatEntryView {
    pub depth: nat,
    pub name: Seq<char>,
}

impl View for FlatEntry {
    type V = FlatEntryView;

    open spec fn view(&self) -> FlatEntryView {
        FlatEntryView { depth: self.depth as nat, name: self.name@ }
    }
}

/// What a sequence of entries stands for.
pub open spec fn entry_views(entries: Seq<FlatEntry>) -> Seq<FlatEntryView> {
    entries.map_values(|e: FlatEntry| e@)
}

/// What one line of the listing holds.
pub enum Line {
    /// An entry, with its depth and identity.
    Entry(FlatEntryView),
    /// Nothing that can be read as an entry.
    Malformed,
    /// A depth that does not fit the machine's word.
    Overflow,
}

/// Reads a line as its leading digits, the depth, and the package id that
/// follows them. A line is malformed where it does not begin with a digit,
/// holds digits only, or holds a package id without a version.
pub open spec fn parse_line(line: Seq<char>) -> Line {
    let digits = skip_class(line, CharClass::Digit, 0);
    if digits == 0 {
        Line::Malformed
    } else if decimal(line.take(digits)) > usize::MAX {
        Line::Overflow
    } else if digits == line.len() {
        Line::Malformed
    } else {
        match crate_name(line.skip(digits)) {
            Some(name) => Line::Entry(
                FlatEntryView { depth: decimal(line.take(digits)), name },
            ),
            None => Line::Malformed,
        }
    }
}

/// The index just behind the line that begins at `start`: that of its line
/// feed, or `s.len()`.
pub open spec fn line_feed(s: Seq<char>, start: int) -> int {
    find_class(s, CharClass::Exactly('\n'), start)
}

/// The line that begins at `start`, without its line feed and without the
/// carriage return that may stand before the line feed.
pub open spec fn line_at(s: Seq<char>, start: int) -> Seq<char> {
    let feed = line_feed(s, start);
    if start < feed < s.len() && s[feed - 1] == '\r' {
        s.subrange(start, feed - 1)
    } else {
        s.subrange(start, feed)
    }
}

/// The lines of `s` from `start` on. A line feed ends a line; text after the
/// last line feed is a line of its own.
pub open spec fn lines_from(s: Seq<char>, start: int) -> Seq<Seq<char>>
    decreases s.len() + 1 - start,
    via lines_from_decreases
{
    if start < 0 || start >= s.len() {
        Seq::empty()
    } else {
        seq![line_at(s, start)] + lines_from(s, line_feed(s, start) + 1)
    }
}

#[via_fn]
proof fn lines_from_decreases(s: Seq<char>, start: int) {
    if 0 <= start < s.len() {
        lemma_find_class_bounds(s, CharClass::Exactly('\n'), start);
    }
}

/// The entries of the lines read so far, or the error that stopped the
/// reading. Lines are read in order. A depth that overflows stops the reading
/// wherever it stands; a malformed line stops it where it is the first line,
/// and is passed over anywhere else.
pub open spec fn parse_lines(lines: Seq<Seq<char>>) -> Result<Seq<FlatEntryView>, ParseError>
    decreases lines.len(),
{
    if lines.len() == 0 {
        Ok(Seq::empty())
    } else {
        match parse_lines(lines.drop_last()) {
            Err(e) => Err(e),
            Ok(entries) => match parse_line(lines.last()) {
                Line::Entry(e) => Ok(entries.push(e)),
                Line::Overflow => Err(ParseError::DepthOverflow),
                Line::Malformed => if lines.len() == 1 {
                    Err(ParseError::BadFirstLine)
                } else {
                    Ok(entries)
                },
            },
        }
    }
}

/// The entries that a listing holds. An empty listing has no first line.
pub open spec fn parsed_entries(raw: Seq<char>) -> Result<Seq<FlatEntryView>, ParseError> {
    let lines = lines_from(raw, 0);
    if lines.len() == 0 {
        Err(ParseError::BadFirstLine)
    } else {
        parse_lines(lines)
    }
}

proof fn lemma_error_stops_reading(read: Seq<Seq<char>>, rest: Seq<Seq<char>>)
    requires
        parse_lines(read) is Err,
    ensures
        parse_lines(read + rest) == parse_lines(read),
    decreases rest.len(),
{
    if rest.len() == 0 {
        assert(read + rest == read);
    } else {
        lemma_error_stops_reading(read, rest.drop_last());
        assert((read + rest).drop_last() == read + rest.drop_last());
    }
}

/// What the line `s[from..to]` holds.
fn read_line(s: &Vec<char>, from: usize, to: usize) -> (line: Result<Option<FlatEntry>, ParseError>)
    requires
        from <= to <= s.len(),
    ensures
        match line {
            Ok(Some(e)) => parse_line(s@.subrange(from as int, to as int)) == Line::Entry(e@),
            Ok(None) => parse_line(s@.subrange(from as int, to as int)) == Line::Malformed,
            Err(e) => e == ParseError::DepthOverflow
                && parse_line(s@.subrange(from as int, to as int)) == Line::Overflow,
        },
{
    let line = crate::text::slice_of(s, from, to);
    let digits = skip_in(&line, CharClass::Digit, 0);
    if digits == 0 {
        return Ok(None);
    }
    assert(line@.subrange(0, digits as int) == line@.take(digits as int));
    let depth = match read_decimal(&line, 0, digits) {
        None => { return Err(ParseError::DepthOverflow); },
        Some(depth) => depth,
    };
    if digits == line.len() {
        return Ok(None);
    }
    assert(line@.subrange(digits as int, line.len() as int) == line@.skip(digits as int));
    match crate_name_in(&line, digits, line.len()) {
        Some(name) => Ok(Some(FlatEntry { depth, name })),
        None => Ok(None),
    }
}

/// Reads a listing into its entries, one for each well-formed line. The first
/// entry is that of the first line.
pub fn parse(raw: String) -> (entries: Result<Vec<FlatEntry>, ParseError>)
    ensures
        match entries {
            Ok(v) => parsed_entries(raw@) == Ok::<_, ParseError>(entry_views(v@)) && v.len() > 0,
            Err(e) => parsed_entries(raw@) == Err::<Seq<FlatEntryView>, _>(e),
        },
{
    let s = chars_of(raw.as_str());
    if s.len() == 0 {
        return Err(ParseError::BadFirstLine);
    }
    let mut entries: Vec<FlatEntry> = Vec::new();
    let mut start: usize = 0;
    let ghost mut done: Seq<Seq<char>> = Seq::empty();
    assert(entry_views(entries@) == Seq::<FlatEntryView>::empty());
    assert(done + lines_from(s@, 0) == lines_from(s@, 0));
    while start < s.len()
        invariant
            start <= s.len(),
            s@ == raw@,
            lines_from(s@, 0) == done + lines_from(s@, start as int),
            parse_lines(done) == Ok::<_, ParseError>(entry_views(entries@)),
            (start == 0) == (done.len() == 0),
            start > 0 ==> entries.len() > 0,
        decreases s.len() - start,
    {
        let feed = find_in(&s, CharClass::Exactly('\n'), start);
        let end = if start < feed && feed < s.len() && s[feed - 1] == '\r' {
            feed - 1
        } else {
            feed
        };
        let ghost line = line_at(s@, start as int);
        proof {
            assert(lines_from(s@, start as int) == seq![line] + lines_from(s@, feed + 1));
            assert(done + (seq![line] + lines_from(s@, feed + 1)) == done.push(line) + lines_from(
                s@,
                feed + 1,
            ));
            assert(done.push(line).drop_last() == done);
        }
        let first = start == 0;
        match read_line(&s, start, end) {
            Err(e) => {
                proof {
                    lemma_error_stops_reading(done.push(line), lines_from(s@, feed + 1));
                }
                return Err(e);
            },
            Ok(Some(entry)) => {
                proof {
                    assert(entry_views(entries@.push(entry)) == entry_views(entries@).push(
                        entry@,
                    ));
                }
                entries.push(entry);
            },
            Ok(None) => {
                if first {
                    proof {
                        lemma_error_stops_reading(done.push(line), lines_from(s@, feed + 1));
                    }
                    return Err(ParseError::BadFirstLine);
                }
            },
        }
        proof {
            done = done.push(line);
        }
        start = if feed < s.len() { feed + 1 } else { feed };
    }
    assert(done + lines_from(s@, start as int) == done);
    Ok(entries)
}

/// The MD5 digest of `data`, sixteen bytes.
pub uninterp spec fn md5_digest(data: Seq<u8>) -> Seq<u8>;

/// Calls `md5::compute` and hands out the sixteen bytes of the digest, which
/// depend on `data` alone.
#[verifier::external_body]
fn md5_of(data: &[u8]) -> (digest: [u8; 16])
    ensures
        digest@ == md5_digest(data@),
{
    md5::compute(data).0
}

/// The colour that a digest gives: its first three bytes.
pub open spec fn digest_color(digest: Seq<u8>) -> Color {
    Color { red: digest[0], green: digest[1], blue: digest[2] }
}

/// The colour that a digest gives.
pub fn color_of_digest(digest: &[u8; 16]) -> (color: Color)
    ensures
        color == digest_color(digest@),
{
    Color { red: digest[0], green: digest[1], blue: digest[2] }
}

/// The colour of a component: that of the MD5 digest of its name in UTF-8.
pub open spec fn hashed_color(name: Seq<char>) -> Color {
    digest_color(md5_digest(vstd::utf8::encode_utf8(name)))
}

/// A component with the components it depends on.
#[derive(Debug, PartialEq, Eq)]
pub struct TreeNode {
    pub name: String,
    pub children: Vec<TreeNode>,
    pub color: Color,
}

/// What a `TreeNode` stands for.
pub struct TreeView {
    pub name: Seq<char>,
    pub children: Seq<TreeView>,
    pub color: Color,
}

/// What the node `n` stands for.
pub open spec fn tree_view(n: TreeNode) -> TreeView
    decreases n, 0nat,
{
    TreeView {
        name: n.name@,
        children: forest_view(n.children, n.children.len() as nat),
        color: n.color,
    }
}

/// What the first `upto` nodes of `v` stand for.
pub open spec fn forest_view(v: Vec<TreeNode>, upto: nat) -> Seq<TreeView>
    decreases v, upto,
{
    if upto == 0 || upto > v.len() {
        Seq::empty()
    } else {
        forest_view(v, (upto - 1) as nat).push(tree_view(v[upto - 1]))
    }
}

impl View for TreeNode {
    type V = TreeView;

    open spec fn view(&self) -> TreeView {
        tree_view(*self)
    }
}

proof fn lemma_forest_view(v: Vec<TreeNode>, upto: nat)
    requires
        upto <= v.len(),
    ensures
        forest_view(v, upto).len() == upto,
        forall|i: int| 0 <= i < upto ==> forest_view(v, upto)[i] == tree_view(#[trigger] v[i]),
    decreases upto,
{
    if upto > 0 {
        lemma_forest_view(v, (upto - 1) as nat);
    }
}

/// A node stands for its name, its colour, and what its children stand for.
pub proof fn lemma_node_view(n: TreeNode)
    ensures
        n@.name == n.name@,
        n@.color == n.color,
        n@.children.len() == n.children.len(),
        forall|i: int| 0 <= i < n.children.len() ==> n@.children[i] == (#[trigger] n.children[i])@,
{
    lemma_forest_view(n.children, n.children.len() as nat);
}

/// The function that takes a node to what it stands for.
pub open spec fn node_view() -> spec_fn(TreeNode) -> TreeView {
    |n: TreeNode| n@
}

/// The number of nodes of `t`, `t` itself included.
pub open spec fn tree_size(t: TreeView) -> nat
    decreases t,
{
    1 + forest_size(t.children)
}

/// The number of nodes of the trees of `ts`.
pub open spec fn forest_size(ts: Seq<TreeView>) -> nat
    decreases ts,
{
    if ts.len() == 0 {
        0
    } else {
        forest_size(ts.drop_last()) + tree_size(ts.last())
    }
}

/// The number of nodes below `t`.
pub open spec fn descendants(t: TreeView) -> nat {
    forest_size(t.children)
}

/// Whether, at every node of `t`, a child never has fewer descendants than
/// the child before it.
pub open spec fn ordered(t: TreeView) -> bool
    decreases t,
{
    &&& forall|i: int, j: int|
        0 <= i < j < t.children.len() ==> descendants(#[trigger] t.children[i]) <= descendants(
            #[trigger] t.children[j],
        )
    &&& forall|i: int| 0 <= i < t.children.len() ==> ordered(#[trigger] t.children[i])
}

/// The index of the first entry at or after `j` that lies no deeper than the
/// entry at `root`, or `e.len()`: where the entries below `root` end.
pub open spec fn span_end(e: Seq<FlatEntryView>, root: int, j: int) -> int
    decreases e.len() - j,
{
    if j < 0 || j >= e.len() {
        e.len() as int
    } else if e[j].depth <= e[root].depth {
        j
    } else {
        span_end(e, root, j + 1)
    }
}

/// The tree of the entry at `root`: the entry's name and colour, and as
/// children the trees of its direct children, sorted by their number of
/// descendants, equal numbers in the order of the listing.
pub open spec fn subtree(e: Seq<FlatEntryView>, root: int) -> TreeView
    decreases e.len() - root, e.len() + 1,
    when 0 <= root < e.len()
{
    TreeView {
        name: e[root].name,
        children: unkeyed(stable_sorted(child_pairs(e, root, root + 1))),
        color: hashed_color(e[root].name),
    }
}

/// The trees of the direct children of `root` from index `j` on, each with its
/// number of descendants as key. The direct children are the entries one
/// level below `root` that stand before the first entry no deeper than
/// `root`; a deeper entry belongs to the child before it, or to none.
pub open spec fn child_pairs(e: Seq<FlatEntryView>, root: int, j: int) -> Seq<(usize, TreeView)>
    decreases e.len() - root, e.len() - j,
    when 0 <= root < j
{
    if j >= e.len() || e[j].depth <= e[root].depth {
        Seq::empty()
    } else if e[j].depth == e[root].depth + 1 {
        seq![(descendants(subtree(e, j)) as usize, subtree(e, j))] + child_pairs(e, root, j + 1)
    } else {
        child_pairs(e, root, j + 1)
    }
}

/// Where the entries below `root` end, and that every entry before that lies
/// deeper than `root`.
pub proof fn lemma_span_end(e: Seq<FlatEntryView>, root: int, j: int)
    requires
        0 <= j <= e.len(),
    ensures
        j <= span_end(e, root, j) <= e.len(),
        span_end(e, root, j) < e.len() ==> e[span_end(e, root, j)].depth <= e[root].depth,
        forall|m: int| j <= m < span_end(e, root, j) ==> (#[trigger] e[m]).depth > e[root].depth,
    decreases e.len() - j,
{
    if j < e.len() && e[j].depth > e[root].depth {
        lemma_span_end(e, root, j + 1);
    }
}

/// The number of nodes of two forests, one behind the other, is the sum of
/// their numbers of nodes.
pub proof fn lemma_forest_size_add(a: Seq<TreeView>, b: Seq<TreeView>)
    ensures
        forest_size(a + b) == forest_size(a) + forest_size(b),
    decreases b.len(),
{
    if b.len() == 0 {
        assert(a + b == a);
    } else {
        lemma_forest_size_add(a, b.drop_last());
        assert((a + b).drop_last() == a + b.drop_last());
    }
}

/// Sorting a forest leaves its number of nodes as it was.
pub proof fn lemma_forest_size_sorted(s: Seq<(usize, TreeView)>)
    ensures
        forest_size(unkeyed(stable_sorted(s))) == forest_size(unkeyed(s)),
    decreases s.len(),
{
    if s.len() > 0 {
        let x = s.last();
        let front = s.drop_last();
        let rest = stable_sorted(front);
        lemma_forest_size_sorted(front);
        lemma_stable_sorted(front);
        lemma_slot_for(rest, x.0);
        let at = slot_for(rest, x.0);
        let trees = unkeyed(rest);
        assert(unkeyed(rest.insert(at, x)) == trees.take(at).push(x.1) + trees.skip(at));
        assert(trees == trees.take(at) + trees.skip(at));
        lemma_forest_size_add(trees.take(at).push(x.1), trees.skip(at));
        lemma_forest_size_add(trees.take(at), trees.skip(at));
        assert(trees.take(at).push(x.1).drop_last() == trees.take(at));
        assert(unkeyed(s).drop_last() == unkeyed(front));
    }
}

/// Whether a node stands with its number of descendants as key, its children
/// in order all the way down.
pub open spec fn sized(p: (usize, TreeNode)) -> bool {
    p.0 == descendants(p.1@) && ordered(p.1@)
}

/// The tree of the entry at `root`, and its number of nodes.
fn build(entries: &Vec<FlatEntry>, root: usize) -> (built: (TreeNode, usize))
    requires
        root < entries.len(),
    ensures
        built.0@ == subtree(entry_views(entries@), root as int),
        built.1 == tree_size(built.0@),
        built.1 <= span_end(entry_views(entries@), root as int, root + 1) - root,
        ordered(built.0@),
    decreases entries.len() - root,
{
    let ghost e = entry_views(entries@);
    let depth = entries[root].depth;
    let mut pairs: Vec<(usize, TreeNode)> = Vec::new();
    let mut total: usize = 1;
    let ghost mut covered: int = root + 1;
    let mut j: usize = root + 1;
    proof {
        lemma_span_end(e, root as int, root + 1);
        assert(relabel(pairs@, node_view()) == Seq::<(usize, TreeView)>::empty());
        assert(relabel(pairs@, node_view()) + child_pairs(e, root as int, root + 1)
            == child_pairs(e, root as int, root + 1));
        assert(unkeyed(relabel(pairs@, node_view())) == Seq::<TreeView>::empty());
    }
    while j < entries.len() && entries[j].depth > depth
        invariant
            root < j <= entries.len(),
            e == entry_views(entries@),
            depth == entries@[root as int].depth,
            child_pairs(e, root as int, root + 1) == relabel(pairs@, node_view()) + child_pairs(
                e,
                root as int,
                j as int,
            ),
            span_end(e, root as int, root + 1) == span_end(e, root as int, j as int),
            forall|i: int| 0 <= i < pairs.len() ==> sized(#[trigger] pairs@[i]),
            total == 1 + forest_size(unkeyed(relabel(pairs@, node_view()))),
            root < covered <= span_end(e, root as int, root + 1),
            total <= covered - root,
            forall|m: int| j <= m < covered ==> (#[trigger] e[m]).depth > depth + 1,
        decreases entries.len() - j,
    {
        assert(e[j as int].depth == entries@[j as int].depth);
        assert(e[root as int].depth == depth);
        if entries[j].depth - 1 == depth {
            let (node, size) = build(entries, j);
            let ghost old_pairs = pairs@;
            proof {
                lemma_span_end(e, j as int, j + 1);
                lemma_span_end(e, root as int, j + 1);
                let end = span_end(e, root as int, root + 1);
                if end < e.len() && span_end(e, j as int, j + 1) > end {
                    assert(e[end].depth > e[j as int].depth);
                }
            }
            total = total + size;
            pairs.push((size - 1, node));
            proof {
                covered = span_end(e, j as int, j + 1);
                let views = relabel(old_pairs, node_view());
                let pair = ((size - 1) as usize, node@);
                assert(relabel(pairs@, node_view()) == views.push(pair));
                assert(views + (seq![pair] + child_pairs(e, root as int, j + 1)) == views.push(
                    pair,
                ) + child_pairs(e, root as int, j + 1));
                assert(unkeyed(views.push(pair)).drop_last() == unkeyed(views));
            }
        }
        j += 1;
    }
    let ghost raw = relabel(pairs@, node_view());
    proof {
        assert(raw + child_pairs(e, root as int, j as int) == raw);
    }
    let sorted = sort_by_key(pairs);
    proof {
        lemma_relabel_sorted(sorted@, pairs@, node_view());
        lemma_stable_sorted(raw);
        lemma_forest_size_sorted(raw);
        assert forall|i: int| 0 <= i < sorted.len() implies sized(#[trigger] sorted@[i]) by {
            lemma_sorted_item(sorted@, pairs@, i);
        }
    }
    let ghost keyed_views = relabel(sorted@, node_view());
    let mut children: Vec<TreeNode> = Vec::new();
    for p in it: sorted.into_iter()
        invariant
            it.seq() == sorted@,
            children.len() == it.index(),
            forall|i: int| 0 <= i < children.len() ==> children@[i] == it.seq()[i].1,
    {
        children.push(p.1);
    }
    let name = entries[root].name.clone();
    let digest = md5_of(name.as_str().as_bytes());
    let node = TreeNode { name, children, color: color_of_digest(&digest) };
    proof {
        lemma_node_view(node);
        assert(node@.children.len() == unkeyed(keyed_views).len());
        assert forall|i: int| 0 <= i < node@.children.len() implies node@.children[i]
            == unkeyed(keyed_views)[i] by {
            assert(node@.children[i] == node.children[i]@);
        }
        assert(node@.children == unkeyed(keyed_views));
        assert forall|a: int, b: int| 0 <= a < b < node@.children.len() implies descendants(
            #[trigger] node@.children[a],
        ) <= descendants(#[trigger] node@.children[b]) by {
            assert(sized(sorted@[a]) && sized(sorted@[b]));
            assert(sorted@[a].0 <= sorted@[b].0);
        }
        assert forall|a: int| 0 <= a < node@.children.len() implies ordered(
            #[trigger] node@.children[a],
        ) by {
            assert(sized(sorted@[a]));
        }
    }
    (node, total)
}

/// Folds the entries of a listing into the tree of its first entry.
pub fn tree(flat: Vec<FlatEntry>) -> (root: TreeNode)
    requires
        flat.len() > 0,
    ensures
        root@ == subtree(entry_views(flat@), 0),
        ordered(root@),
        tree_size(root@) <= flat.len(),
{
    proof {
        lemma_span_end(entry_views(flat@), 0, 1);
    }
    let (root, _) = build(&flat, 0);
    root
}

/// The tree that a listing stands for: that of its first entry, over all the
/// entries read from it.
pub open spec fn parsed_tree(raw: Seq<char>) -> Result<TreeView, ParseError> {
    match parsed_entries(raw) {
        Ok(entries) => Ok(subtree(entries, 0)),
        Err(e) => Err(e),
    }
}

/// What an outcome of `parse_tree` stands for.
pub open spec fn outcome_view(outcome: Result<TreeNode, ParseError>) -> Result<
    TreeView,
    ParseError,
> {
    match outcome {
        Ok(root) => Ok(root@),
        Err(e) => Err(e),
    }
}

/// Reads a listing into a tree. Repeated components are kept wherever the
/// listing names them.
pub fn parse_tree(raw: String) -> (outcome: Result<TreeNode, ParseError>)
    ensures
        outcome_view(outcome) == parsed_tree(raw@),
        outcome matches Ok(root) ==> ordered(root@),
{
    match parse(raw) {
        Ok(entries) => Ok(tree(entries)),
        Err(e) => Err(e),
    }
}

/// Reading one listing twice gives one tree: the same names, the same
/// children under each node, in the same order.
pub proof fn lemma_parse_tree_is_a_function(
    raw: Seq<char>,
    first: Result<TreeNode, ParseError>,
    second: Result<TreeNode, ParseError>,
)
    requires
        outcome_view(first) == parsed_tree(raw),
        outcome_view(second) == parsed_tree(raw),
    ensures
        outcome_view(first) == outcome_view(second),
        first is Ok ==> second is Ok,
{
}

} // verus!
