//! The dependency graph by name: every component once, with the names of the
//! components it depends on. A component that the listing names in several
//! places is one node here.

use vstd::prelude::*;
use crate::drawing::{circle_views, lines_of, tree_circles, Color, DrawingPlan, DEPTH_LIMIT};
use crate::name_set::texts;
use crate::parse_cargo_tree_output::{
    entry_views, lemma_node_view, parse, parsed_entries, FlatEntry, FlatEntryView, ParseError,
    TreeNode, TreeView,
};

verus! {

/// The graph while a listing is read: for each component seen the names of
/// its dependencies, in the order in which they were first seen, and the path
/// of names from the top to the entry read last.
pub struct Reading {
    pub children: Map<Seq<char>, Seq<Seq<char>>>,
    pub stack: Seq<Seq<char>>,
}

/// `kids` with `name` behind it, unless it holds `name` already.
pub open spec fn with_name(kids: Seq<Seq<char>>, name: Seq<char>) -> Seq<Seq<char>> {
    if kids.contains(name) {
        kids
    } else {
        kids.push(name)
    }
}

/// Reads one entry. The path is cut back to the entry's depth. An entry that
/// names a component of the path is passed over: a component does not depend
/// on itself. Any other entry becomes a node, unless it is one already, and
/// a dependency of the last component of the path, and is put on the path.
pub open spec fn read_entry(r: Reading, e: FlatEntryView) -> Reading {
    let stack = if e.depth < r.stack.len() {
        r.stack.take(e.depth as int)
    } else {
        r.stack
    };
    if stack.contains(e.name) {
        Reading { children: r.children, stack }
    } else {
        let known = if r.children.dom().contains(e.name) {
            r.children
        } else {
            r.children.insert(e.name, Seq::empty())
        };
        let linked = if stack.len() > 0 {
            known.insert(stack.last(), with_name(known[stack.last()], e.name))
        } else {
            known
        };
        Reading { children: linked, stack: stack.push(e.name) }
    }
}

/// The graph after the entries `entries`, read in order.
pub open spec fn read_entries(entries: Seq<FlatEntryView>) -> Reading
    decreases entries.len(),
{
    if entries.len() == 0 {
        Reading { children: Map::empty(), stack: Seq::empty() }
    } else {
        read_entry(read_entries(entries.drop_last()), entries.last())
    }
}

/// What a `DependencyTree` stands for: the name of its root, and for each
/// component the names of its dependencies.
pub struct GraphView {
    pub root: Seq<char>,
    pub children: Map<Seq<char>, Seq<Seq<char>>>,
}

/// Whether every dependency that the graph names is a component of the
/// graph, and no component names a dependency twice.
pub open spec fn is_closed(graph: GraphView) -> bool {
    forall|name: Seq<char>| #[trigger]
        graph.children.dom().contains(name) ==> graph.children[name].no_duplicates() && forall|
            k: int,
        |
            0 <= k < graph.children[name].len() ==> graph.children.dom().contains(
                #[trigger] graph.children[name][k],
            )
}

/// The graph of a listing's entries. Its root is the component at the top of
/// the path when the last entry is read.
pub open spec fn graph_of(entries: Seq<FlatEntryView>) -> GraphView {
    GraphView { root: read_entries(entries).stack[0], children: read_entries(entries).children }
}

/// A component of the graph.
struct Node {
    name: String,
    children: Vec<String>,
}

/// Whether one of `nodes` is named `name`.
spec fn has_name(nodes: Seq<Node>, name: Seq<char>) -> bool {
    exists|i: int| 0 <= i < nodes.len() && (#[trigger] nodes[i]).name@ == name
}

/// The index of a node named `name`.
spec fn index_of(nodes: Seq<Node>, name: Seq<char>) -> int {
    choose|i: int| 0 <= i < nodes.len() && (#[trigger] nodes[i]).name@ == name
}

/// The map from names to dependencies that `nodes` hold.
spec fn children_of(nodes: Seq<Node>) -> Map<Seq<char>, Seq<Seq<char>>> {
    Map::new(
        |name: Seq<char>| has_name(nodes, name),
        |name: Seq<char>| texts(nodes[index_of(nodes, name)].children@),
    )
}

/// Whether `nodes` are a graph: no two nodes share a name, no node names a
/// dependency twice, and every dependency is a node.
spec fn is_graph(nodes: Seq<Node>) -> bool {
    &&& forall|i: int, j: int|
        0 <= i < j < nodes.len() ==> (#[trigger] nodes[i]).name@ != (#[trigger] nodes[j]).name@
    &&& forall|i: int| 0 <= i < nodes.len() ==> texts((#[trigger] nodes[i]).children@).no_duplicates()
    &&& forall|i: int, k: int|
        0 <= i < nodes.len() && 0 <= k < nodes[i].children.len() ==> has_name(
            nodes,
            #[trigger] texts(nodes[i].children@)[k],
        )
}

/// The names of the nodes that the indices of `stack` point to.
spec fn path_names(nodes: Seq<Node>, stack: Seq<usize>) -> Seq<Seq<char>> {
    stack.map_values(|i: usize| nodes[i as int].name@)
}

proof fn lemma_index_of(nodes: Seq<Node>, i: int)
    requires
        is_graph(nodes),
        0 <= i < nodes.len(),
    ensures
        has_name(nodes, nodes[i].name@),
        index_of(nodes, nodes[i].name@) == i,
{
    let j = index_of(nodes, nodes[i].name@);
    if j < i {
        assert(nodes[j].name@ != nodes[i].name@);
    } else if i < j {
        assert(nodes[i].name@ != nodes[j].name@);
    }
}

/// The names of `nodes`.
spec fn node_names(nodes: Seq<Node>) -> Seq<Seq<char>> {
    nodes.map_values(|n: Node| n.name@)
}

proof fn lemma_component_count(nodes: Seq<Node>)
    requires
        is_graph(nodes),
    ensures
        children_of(nodes).dom().finite(),
        children_of(nodes).dom().len() == nodes.len(),
{
    let names = node_names(nodes);
    assert(names.no_duplicates()) by {
        assert forall|i: int, j: int| 0 <= i < names.len() && 0 <= j < names.len() && i != j implies names[i] != names[j] by {
            if i < j {
                assert(nodes[i].name@ != nodes[j].name@);
            } else {
                assert(nodes[j].name@ != nodes[i].name@);
            }
        }
    }
    names.unique_seq_to_set();
    assert forall|n: Seq<char>| children_of(nodes).dom().contains(n) <==> names.to_set().contains(
        n,
    ) by {
        if has_name(nodes, n) {
            let i = index_of(nodes, n);
            assert(names[i] == n);
        }
        if names.contains(n) {
            let i = choose|i: int| 0 <= i < names.len() && names[i] == n;
            assert(nodes[i].name@ == n);
        }
    }
    assert(children_of(nodes).dom() =~= names.to_set());
    vstd::seq_lib::seq_to_set_is_finite(names);
}

/// The index of the node named `name`, if there is one.
fn find_node(nodes: &Vec<Node>, name: &String) -> (at: Option<usize>)
    requires
        is_graph(nodes@),
    ensures
        match at {
            Some(i) => i < nodes.len() && nodes@[i as int].name@ == name@ && index_of(
                nodes@,
                name@,
            ) == i && has_name(nodes@, name@),
            None => !has_name(nodes@, name@),
        },
{
    let mut i: usize = 0;
    while i < nodes.len()
        invariant
            i <= nodes.len(),
            is_graph(nodes@),
            forall|j: int| 0 <= j < i ==> (#[trigger] nodes@[j]).name@ != name@,
        decreases nodes.len() - i,
    {
        if nodes[i].name == *name {
            proof {
                lemma_index_of(nodes@, i as int);
            }
            return Some(i);
        }
        i += 1;
    }
    None
}

/// Whether `names` hold `name`.
fn holds_name(names: &Vec<String>, name: &String) -> (found: bool)
    ensures
        found == texts(names@).contains(name@),
{
    let mut i: usize = 0;
    while i < names.len()
        invariant
            i <= names.len(),
            forall|j: int| 0 <= j < i ==> texts(names@)[j] != name@,
        decreases names.len() - i,
    {
        if names[i] == *name {
            assert(texts(names@)[i as int] == name@);
            return true;
        }
        i += 1;
    }
    false
}

/// Whether one of the nodes on the path is named `name`.
fn on_path(nodes: &Vec<Node>, stack: &Vec<usize>, name: &String) -> (found: bool)
    requires
        forall|k: int| 0 <= k < stack.len() ==> (#[trigger] stack@[k]) < nodes.len(),
    ensures
        found == path_names(nodes@, stack@).contains(name@),
{
    let mut k: usize = 0;
    while k < stack.len()
        invariant
            k <= stack.len(),
            forall|j: int| 0 <= j < stack.len() ==> (#[trigger] stack@[j]) < nodes.len(),
            forall|j: int| 0 <= j < k ==> path_names(nodes@, stack@)[j] != name@,
        decreases stack.len() - k,
    {
        if nodes[stack[k]].name == *name {
            assert(path_names(nodes@, stack@)[k as int] == name@);
            return true;
        }
        k += 1;
    }
    false
}

/// What the nodes and the path read so far stand for.
spec fn reading_of(nodes: Seq<Node>, stack: Seq<usize>) -> Reading {
    Reading { children: children_of(nodes), stack: path_names(nodes, stack) }
}

/// Whether every index of `stack` points to one of `nodes`.
spec fn path_fits(nodes: Seq<Node>, stack: Seq<usize>) -> bool {
    forall|k: int| 0 <= k < stack.len() ==> (#[trigger] stack[k]) < nodes.len()
}

/// Reads one entry into the nodes and the path.
fn read_one(nodes: &mut Vec<Node>, stack: &mut Vec<usize>, entry: &FlatEntry)
    requires
        is_graph(old(nodes)@),
        path_fits(old(nodes)@, old(stack)@),
    ensures
        is_graph(final(nodes)@),
        path_fits(final(nodes)@, final(stack)@),
        reading_of(final(nodes)@, final(stack)@) == read_entry(
            reading_of(old(nodes)@, old(stack)@),
            entry@,
        ),
        old(stack).len() > 0 ==> final(stack).len() > 0,
        !path_names(old(nodes)@, old(stack)@).contains(entry@.name) ==> final(stack).len() > 0,
{
    let ghost before = reading_of(nodes@, stack@);
    if entry.depth < stack.len() {
        stack.truncate(entry.depth);
    }
    let ghost cut = path_names(nodes@, stack@);
    proof {
        if entry.depth < old(stack).len() {
            assert(cut == before.stack.take(entry.depth as int));
        } else {
            assert(cut == before.stack);
        }
    }
    if on_path(nodes, stack, &entry.name) {
        return ;
    }
    let ghost nodes0 = nodes@;
    let at = match find_node(nodes, &entry.name) {
        Some(i) => i,
        None => {
            nodes.push(Node { name: entry.name.clone(), children: Vec::new() });
            proof {
                let grown = nodes@;
                let fresh = nodes0.len() as int;
                assert(texts(grown[fresh].children@) == Seq::<Seq<char>>::empty());
                assert forall|i: int, k: int|
                    0 <= i < grown.len() && 0 <= k < grown[i].children.len() implies has_name(
                    grown,
                    #[trigger] texts(grown[i].children@)[k],
                ) by {
                    assert(grown[i] == nodes0[i]);
                    let kid = texts(nodes0[i].children@)[k];
                    assert(has_name(nodes0, kid));
                    let j = index_of(nodes0, kid);
                    assert(grown[j].name@ == kid);
                }
                assert(is_graph(grown));
                assert forall|name: Seq<char>| has_name(grown, name) <==> (has_name(nodes0, name)
                    || name == entry@.name) by {
                    if has_name(nodes0, name) {
                        let j = index_of(nodes0, name);
                        assert(grown[j].name@ == name);
                    }
                    if name == entry@.name {
                        assert(grown[fresh].name@ == name);
                    }
                }
                assert forall|name: Seq<char>| has_name(grown, name) implies #[trigger] children_of(
                    grown,
                )[name] == before.children.insert(entry@.name, Seq::empty())[name] by {
                    let j = index_of(grown, name);
                    lemma_index_of(grown, j);
                    if j < fresh {
                        assert(grown[j] == nodes0[j]);
                        lemma_index_of(nodes0, j);
                    }
                }
                assert(children_of(grown) == before.children.insert(entry@.name, Seq::empty()));
                assert(path_names(grown, stack@) == cut);
            }
            nodes.len() - 1
        },
    };
    let ghost known = children_of(nodes@);
    let ghost nodes1 = nodes@;
    proof {
        lemma_index_of(nodes1, at as int);
    }
    if stack.len() > 0 {
        let parent = stack[stack.len() - 1];
        proof {
            lemma_index_of(nodes1, parent as int);
            assert(cut.last() == nodes1[parent as int].name@);
            assert(known[cut.last()] == texts(nodes1[parent as int].children@));
        }
        if !holds_name(&nodes[parent].children, &entry.name) {
            let ghost kids = texts(nodes1[parent as int].children@);
            nodes[parent].children.push(entry.name.clone());
            proof {
                let linked = nodes@;
                assert(texts(linked[parent as int].children@) == kids.push(entry@.name));
                assert forall|name: Seq<char>| has_name(linked, name) <==> has_name(
                    nodes1,
                    name,
                ) by {
                    if has_name(linked, name) {
                        let j = index_of(linked, name);
                        assert(nodes1[j].name@ == name);
                    }
                    if has_name(nodes1, name) {
                        let j = index_of(nodes1, name);
                        assert(linked[j].name@ == name);
                    }
                }
                assert forall|i: int, k: int|
                    0 <= i < linked.len() && 0 <= k < linked[i].children.len() implies has_name(
                    linked,
                    #[trigger] texts(linked[i].children@)[k],
                ) by {
                    if i == parent && k == kids.len() {
                        assert(linked[at as int].name@ == entry@.name);
                    } else {
                        assert(texts(linked[i].children@)[k] == texts(nodes1[i].children@)[k]);
                        assert(has_name(nodes1, texts(nodes1[i].children@)[k]));
                    }
                }
                assert forall|i: int| 0 <= i < linked.len() implies texts(
                    (#[trigger] linked[i]).children@,
                ).no_duplicates() by {
                    if i != parent {
                        assert(linked[i] == nodes1[i]);
                    } else {
                        assert(texts(nodes1[i].children@).no_duplicates());
                    }
                }
                assert forall|i: int, j: int| 0 <= i < j < linked.len() implies (
                #[trigger] linked[i]).name@ != (#[trigger] linked[j]).name@ by {
                    assert(linked[i].name@ == nodes1[i].name@);
                    assert(linked[j].name@ == nodes1[j].name@);
                }
                assert(is_graph(linked));
                assert forall|name: Seq<char>| has_name(linked, name) implies #[trigger] children_of(
                    linked,
                )[name] == known.insert(cut.last(), with_name(known[cut.last()], entry@.name))[name] by {
                    let j = index_of(linked, name);
                    lemma_index_of(linked, j);
                    assert(nodes1[j].name@ == name);
                    lemma_index_of(nodes1, j);
                    if j != parent {
                        assert(linked[j] == nodes1[j]);
                    }
                }
                assert(children_of(linked) == known.insert(
                    cut.last(),
                    with_name(known[cut.last()], entry@.name),
                ));
                assert(path_names(linked, stack@) == cut);
            }
        } else {
            proof {
                assert(known.insert(cut.last(), with_name(known[cut.last()], entry@.name))
                    == known);
            }
        }
    }
    let ghost nodes2 = nodes@;
    stack.push(at);
    proof {
        assert(nodes2[at as int].name@ == entry@.name);
        assert(path_names(nodes2, stack@) == cut.push(entry@.name));
    }
}

/// The dependency graph of a listing.
pub struct DependencyTree {
    root: usize,
    nodes: Vec<Node>,
}

impl View for DependencyTree {
    type V = GraphView;

    closed spec fn view(&self) -> GraphView {
        GraphView { root: self.nodes@[self.root as int].name@, children: children_of(self.nodes@) }
    }
}

impl DependencyTree {
    #[verifier::type_invariant]
    spec fn well_formed(self) -> bool {
        is_graph(self.nodes@) && self.root < self.nodes.len()
    }

    /// Reads a listing into the graph of its components.
    pub fn new(listing: String) -> (outcome: Result<DependencyTree, ParseError>)
        ensures
            match outcome {
                Ok(tree) => parsed_entries(listing@) matches Ok(entries) && tree@ == graph_of(
                    entries,
                ) && tree@.children.dom().contains(tree@.root) && is_closed(tree@),
                Err(e) => parsed_entries(listing@) == Err::<Seq<FlatEntryView>, _>(e),
            },
    {
        let entries = match parse(listing) {
            Ok(entries) => entries,
            Err(e) => { return Err(e); },
        };
        let ghost all = entry_views(entries@);
        let mut nodes: Vec<Node> = Vec::new();
        let mut stack: Vec<usize> = Vec::new();
        let mut k: usize = 0;
        proof {
            assert(all.take(0) == Seq::<FlatEntryView>::empty());
            assert(path_names(nodes@, stack@) == Seq::<Seq<char>>::empty());
            assert(children_of(nodes@) == Map::<Seq<char>, Seq<Seq<char>>>::empty());
        }
        while k < entries.len()
            invariant
                k <= entries.len(),
                all == entry_views(entries@),
                is_graph(nodes@),
                path_fits(nodes@, stack@),
                reading_of(nodes@, stack@) == read_entries(all.take(k as int)),
                k > 0 ==> stack.len() > 0,
            decreases entries.len() - k,
        {
            proof {
                assert(all.take(k + 1).drop_last() == all.take(k as int));
                assert(all.take(k + 1).last() == entries@[k as int]@);
                if k == 0 {
                    assert(!path_names(nodes@, stack@).contains(entries@[k as int]@.name));
                }
            }
            read_one(&mut nodes, &mut stack, &entries[k]);
            k += 1;
        }
        proof {
            assert(all.take(k as int) == all);
        }
        let root = stack[0];
        proof {
            lemma_index_of(nodes@, root as int);
            assert(path_names(nodes@, stack@)[0] == nodes@[root as int].name@);
        }
        let tree = DependencyTree { root, nodes };
        proof {
            assert forall|name: Seq<char>| #[trigger]
                tree@.children.dom().contains(name) implies tree@.children[name].no_duplicates()
                && forall|k: int|
                0 <= k < tree@.children[name].len() ==> tree@.children.dom().contains(
                    #[trigger] tree@.children[name][k],
                ) by {
                let i = index_of(tree.nodes@, name);
                assert(texts(tree.nodes@[i].children@).no_duplicates());
                assert forall|k: int| 0 <= k < tree@.children[name].len() implies tree@.children.dom().contains(
                    #[trigger] tree@.children[name][k],
                ) by {
                    assert(has_name(tree.nodes@, texts(tree.nodes@[i].children@)[k]));
                }
            }
        }
        Ok(tree)
    }

    /// The number of components.
    pub fn len(&self) -> (count: usize)
        ensures
            self@.children.dom().finite(),
            count == self@.children.dom().len(),
    {
        proof {
            use_type_invariant(self);
            lemma_component_count(self.nodes@);
        }
        self.nodes.len()
    }

    /// The component named `name`, if the graph holds one.
    pub fn get<'a>(&'a self, name: &str) -> (found: Option<Dependency<'a>>)
        ensures
            match found {
                Some(dep) => dep@.name == name@ && dep@.graph == self@,
                None => !self@.children.dom().contains(name@),
            },
            found is Some ==> self@.children.dom().contains(name@),
    {
        proof {
            use_type_invariant(self);
        }
        let probe = name.to_owned();
        match find_node(&self.nodes, &probe) {
            Some(index) => Some(Dependency { tree: self, index }),
            None => None,
        }
    }

    /// The component that the view starts from: the one named `active`, or
    /// the root where no component is chosen. `None` where the graph holds no
    /// component of that name.
    pub fn current_root<'a>(&'a self, active: Option<&str>) -> (found: Option<Dependency<'a>>)
        ensures
            match active {
                Some(name) => match found {
                    Some(dep) => dep@.name == name@ && dep@.graph == self@,
                    None => !self@.children.dom().contains(name@),
                },
                None => found matches Some(dep) && dep@.name == self@.root && dep@.graph
                    == self@,
            },
    {
        match active {
            Some(name) => self.get(name),
            None => Some(self.root()),
        }
    }

    /// The root of the graph.
    pub fn root<'a>(&'a self) -> (dep: Dependency<'a>)
        ensures
            dep@.name == self@.root,
            dep@.graph == self@,
            self@.children.dom().contains(self@.root),
    {
        proof {
            use_type_invariant(self);
            lemma_index_of(self.nodes@, self.root as int);
        }
        Dependency { tree: self, index: self.root }
    }
}

/// A component of a graph, seen together with the graph.
#[derive(Clone, Copy)]
pub struct Dependency<'a> {
    tree: &'a DependencyTree,
    index: usize,
}

/// What a `Dependency` stands for: a graph and the name of one of its
/// components.
pub struct DependencyView {
    pub graph: GraphView,
    pub name: Seq<char>,
}

impl DependencyView {
    /// The names of the component's dependencies.
    pub open spec fn children(self) -> Seq<Seq<char>> {
        self.graph.children[self.name]
    }
}

impl<'a> View for Dependency<'a> {
    type V = DependencyView;

    closed spec fn view(&self) -> DependencyView {
        DependencyView { graph: self.tree@, name: self.tree.nodes@[self.index as int].name@ }
    }
}

/// The CRC-32 checksum of `data`, with the IEEE polynomial.
pub uninterp spec fn crc32_ieee(data: Seq<u8>) -> u32;

/// Calls `crc::crc32::checksum_ieee`, whose result depends on `data` alone.
#[verifier::external_body]
fn checksum_ieee(data: &[u8]) -> (sum: u32)
    ensures
        sum == crc32_ieee(data@),
{
    crc::crc32::checksum_ieee(data)
}

/// The colour that a checksum gives: its three low bytes, the lowest as red.
pub open spec fn checksum_color(sum: u32) -> Color {
    Color {
        red: (sum & 0xff) as u8,
        green: ((sum >> 8) & 0xff) as u8,
        blue: ((sum >> 16) & 0xff) as u8,
    }
}

/// The colour that a checksum gives.
pub fn color_of_checksum(sum: u32) -> (color: Color)
    ensures
        color == checksum_color(sum),
{
    assert(sum & 0xff <= 0xff) by (bit_vector);
    assert((sum >> 8) & 0xff <= 0xff) by (bit_vector);
    assert((sum >> 16) & 0xff <= 0xff) by (bit_vector);
    Color {
        red: (sum & 0xff) as u8,
        green: ((sum >> 8) & 0xff) as u8,
        blue: ((sum >> 16) & 0xff) as u8,
    }
}

/// The colour of the component named `name`: that of the checksum of the
/// name in UTF-8.
pub open spec fn named_color(name: Seq<char>) -> Color {
    checksum_color(crc32_ieee(vstd::utf8::encode_utf8(name)))
}

/// How many levels deep a view of the graph is unfolded: as many as the graph
/// has components, and `DEPTH_LIMIT` at least. A path that passes no
/// component twice is never longer than that, so that only a graph with a
/// loop is cut short.
pub open spec fn plan_depth(graph: GraphView) -> nat {
    if graph.children.dom().len() > DEPTH_LIMIT {
        graph.children.dom().len()
    } else {
        DEPTH_LIMIT as nat
    }
}

/// The tree that the component `name` unfolds to, `limit` levels deep: the
/// component with its dependencies as children, in the order in which the
/// graph holds them, each unfolded in turn. A component that several
/// components depend on stands under each of them.
pub open spec fn unfolded(graph: GraphView, name: Seq<char>, limit: nat) -> TreeView
    decreases limit, 0nat,
{
    TreeView {
        name,
        children: if limit == 0 {
            Seq::empty()
        } else {
            unfolded_all(graph, graph.children[name], (limit - 1) as nat)
        },
        color: named_color(name),
    }
}

/// The trees that the components `names` unfold to.
pub open spec fn unfolded_all(graph: GraphView, names: Seq<Seq<char>>, limit: nat) -> Seq<
    TreeView,
>
    decreases limit, names.len() + 1,
{
    if names.len() == 0 {
        Seq::empty()
    } else {
        unfolded_all(graph, names.drop_last(), limit).push(unfolded(graph, names.last(), limit))
    }
}

impl<'a> Dependency<'a> {
    #[verifier::type_invariant]
    spec fn in_tree(self) -> bool {
        self.index < self.tree.nodes.len()
    }

    /// The component's name.
    pub fn name(&self) -> (name: &str)
        ensures
            name@ == self@.name,
    {
        proof {
            use_type_invariant(self);
        }
        self.tree.nodes[self.index].name.as_str()
    }

    /// The number of the component's dependencies.
    pub fn children_count(&self) -> (count: usize)
        ensures
            count == self@.children().len(),
            self@.graph.children.dom().contains(self@.name),
    {
        proof {
            use_type_invariant(self);
            use_type_invariant(self.tree);
            lemma_index_of(self.tree.nodes@, self.index as int);
        }
        self.tree.nodes[self.index].children.len()
    }

    /// The component's colour.
    pub fn color(&self) -> (color: Color)
        ensures
            color == named_color(self@.name),
    {
        color_of_checksum(checksum_ieee(self.name().as_bytes()))
    }

    /// The tree that the component unfolds to, at most `limit` levels below
    /// it.
    pub fn unfold(&self, limit: usize) -> (tree: TreeNode)
        ensures
            tree@ == unfolded(self@.graph, self@.name, limit as nat),
        decreases limit,
    {
        let mut children: Vec<TreeNode> = Vec::new();
        if limit > 0 {
            let mut walk = self.into_iter();
            let count = walk.len();
            let ghost kids = self@.children();
            let mut i: usize = 0;
            proof {
                assert(kids.take(0) == Seq::<Seq<char>>::empty());
            }
            while i < count
                invariant
                    i <= count,
                    count == kids.len(),
                    kids == self@.children(),
                    walk@.node == self@,
                    walk@.seen == i,
                    limit > 0,
                    children.len() == i,
                    forall|k: int|
                        0 <= k < i ==> (#[trigger] children@[k])@ == unfolded(
                            self@.graph,
                            kids[k],
                            (limit - 1) as nat,
                        ),
                decreases count - i,
            {
                match walk.next() {
                    Some(dep) => {
                        children.push(dep.unfold(limit - 1));
                    },
                    None => {},
                }
                i += 1;
            }
            proof {
                lemma_unfolded_all(self@.graph, kids, (limit - 1) as nat);
            }
        }
        let name = self.name().to_owned();
        let color = self.color();
        let tree = TreeNode { name, children, color };
        proof {
            lemma_node_view(tree);
            let expected = unfolded(self@.graph, self@.name, limit as nat);
            assert(tree@.children.len() == expected.children.len());
            assert forall|k: int| 0 <= k < tree@.children.len() implies tree@.children[k]
                == expected.children[k] by {
                assert(tree@.children[k] == tree.children[k]@);
            }
            assert(tree@.children == expected.children);
        }
        tree
    }

    /// The draw plan of the view that starts from the component: that of the
    /// tree it unfolds to, `plan_depth` levels deep.
    pub fn plan(&self) -> (plan: DrawingPlan)
        ensures
            circle_views(plan.circles@) == tree_circles(
                unfolded(self@.graph, self@.name, plan_depth(self@.graph)),
                0,
                None,
                0,
                0,
            ),
            plan.lines@ == lines_of(circle_views(plan.circles@)),
    {
        let count = self.tree.len();
        let limit = if count > DEPTH_LIMIT {
            count
        } else {
            DEPTH_LIMIT
        };
        DrawingPlan::new(&self.unfold(limit))
    }

    /// A walk over the component's dependencies, in the order in which the
    /// listing first named them.
    pub fn into_iter(self) -> (walk: DependencyIterator<'a>)
        ensures
            walk@.node == self@,
            walk@.seen == 0,
    {
        DependencyIterator::new(self)
    }
}

/// Whether `rank` falls along every dependency of the graph.
pub open spec fn ranked(graph: GraphView, rank: spec_fn(Seq<char>) -> nat) -> bool {
    forall|name: Seq<char>, k: int|
        0 <= k < graph.children[name].len() ==> rank(#[trigger] graph.children[name][k]) < rank(
            name,
        )
}

/// Where a rank falls along every dependency, the graph has no loop, and a
/// component unfolds to the same tree at every depth from its rank on:
/// unfolding that deep cuts nothing off.
pub proof fn lemma_unfolding_settles(
    graph: GraphView,
    rank: spec_fn(Seq<char>) -> nat,
    name: Seq<char>,
    limit: nat,
    deeper: nat,
)
    requires
        ranked(graph, rank),
        rank(name) <= limit <= deeper,
    ensures
        unfolded(graph, name, limit) == unfolded(graph, name, deeper),
    decreases limit,
{
    let kids = graph.children[name];
    if limit == 0 {
        if kids.len() > 0 {
            assert(rank(kids[0]) < rank(name));
        }
        if deeper > 0 {
            assert(unfolded_all(graph, kids, (deeper - 1) as nat) == Seq::<TreeView>::empty());
        }
    } else {
        let a = unfolded_all(graph, kids, (limit - 1) as nat);
        let b = unfolded_all(graph, kids, (deeper - 1) as nat);
        lemma_unfolded_all(graph, kids, (limit - 1) as nat);
        lemma_unfolded_all(graph, kids, (deeper - 1) as nat);
        assert forall|k: int| 0 <= k < kids.len() implies a[k] == b[k] by {
            assert(rank(kids[k]) < rank(name));
            lemma_unfolding_settles(
                graph,
                rank,
                kids[k],
                (limit - 1) as nat,
                (deeper - 1) as nat,
            );
        }
        assert(a == b);
    }
}

proof fn lemma_unfolded_all(graph: GraphView, names: Seq<Seq<char>>, limit: nat)
    ensures
        unfolded_all(graph, names, limit).len() == names.len(),
        forall|k: int|
            0 <= k < names.len() ==> #[trigger] unfolded_all(graph, names, limit)[k] == unfolded(
                graph,
                names[k],
                limit,
            ),
    decreases names.len(),
{
    if names.len() > 0 {
        lemma_unfolded_all(graph, names.drop_last(), limit);
    }
}

/// A walk over the dependencies of a component.
pub struct DependencyIterator<'a> {
    node: Dependency<'a>,
    index: usize,
}

/// What a `DependencyIterator` stands for: the component, and how many of its
/// dependencies the walk has handed out.
pub struct WalkView {
    pub node: DependencyView,
    pub seen: nat,
}

impl<'a> View for DependencyIterator<'a> {
    type V = WalkView;

    closed spec fn view(&self) -> WalkView {
        WalkView { node: self.node@, seen: self.index as nat }
    }
}

impl<'a> DependencyIterator<'a> {
    #[verifier::type_invariant]
    spec fn in_range(self) -> bool {
        self.node.index < self.node.tree.nodes.len() && self.index
            <= self.node.tree.nodes@[self.node.index as int].children.len()
    }

    /// A walk that has handed out nothing yet.
    pub fn new(node: Dependency<'a>) -> (walk: DependencyIterator<'a>)
        ensures
            walk@.node == node@,
            walk@.seen == 0,
    {
        proof {
            use_type_invariant(&node);
        }
        DependencyIterator { node, index: 0 }
    }

    /// The name of the component whose dependencies are walked.
    pub fn name(&self) -> (name: &str)
        ensures
            name@ == self@.node.name,
    {
        self.node.name()
    }

    /// The slot of the dependency handed out last, if one was handed out.
    pub fn index(&self) -> (slot: Option<usize>)
        ensures
            slot == if self@.seen == 0 {
                None::<usize>
            } else {
                Some((self@.seen - 1) as usize)
            },
    {
        if self.index == 0 {
            None
        } else {
            Some(self.index - 1)
        }
    }

    /// The number of dependencies in all.
    pub fn len(&self) -> (count: usize)
        ensures
            count == self@.node.children().len(),
            self@.seen <= count,
    {
        proof {
            use_type_invariant(self);
            use_type_invariant(self.node.tree);
            lemma_index_of(self.node.tree.nodes@, self.node.index as int);
        }
        self.node.children_count()
    }

    /// The next dependency, or `None` when all have been handed out.
    pub fn next(&mut self) -> (dep: Option<Dependency<'a>>)
        ensures
            final(self)@.node == old(self)@.node,
            match dep {
                Some(d) => old(self)@.seen < old(self)@.node.children().len() && d@.name == old(
                    self,
                )@.node.children()[old(self)@.seen as int] && d@.graph == old(self)@.node.graph
                    && final(self)@.seen == old(self)@.seen + 1,
                None => old(self)@.seen >= old(self)@.node.children().len() && final(self)@.seen
                    == old(self)@.seen,
            },
    {
        proof {
            use_type_invariant(&*self);
            use_type_invariant(self.node.tree);
            lemma_index_of(self.node.tree.nodes@, self.node.index as int);
        }
        let tree = self.node.tree;
        let kids = &tree.nodes[self.node.index].children;
        if self.index < kids.len() {
            let found = find_node(&tree.nodes, &kids[self.index]);
            proof {
                let kid = texts(kids@)[self.index as int];
                assert(has_name(tree.nodes@, kid));
            }
            match found {
                Some(index) => {
                    self.index += 1;
                    Some(Dependency { tree, index })
                },
                None => None,
            }
        } else {
            None
        }
    }
}

} // verus!
