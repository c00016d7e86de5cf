//! The shape of the draw plan: what a layout pass decides from the tree
//! alone, before any coordinate is computed. The plan names, for every node,
//! the circle it hangs from, its place among its siblings and the arc over
//! which it spreads its own children; the trigonometry that turns these into
//! centres and radii is left to the caller.

use vstd::prelude::*;
use crate::name_set::NameSet;
use crate::parse_cargo_tree_output::{
    forest_size, lemma_node_view, tree_size, TreeNode, TreeView,
};

verus! {

/// A colour, as red, green and blue.
#[derive(Debug, Clone, Copy, PartialEq, Eq, Structural)]
pub struct Color {
    pub red: u8,
    pub green: u8,
    pub blue: u8,
}

/// The angular budget over which a node spreads its children.
#[derive(Debug, Clone, Copy, PartialEq, Eq, Structural)]
pub enum SkyArc {
    /// A full turn.
    Full,
    /// A quarter of a turn, around the direction the node was reached from.
    Quarter,
    /// Three quarters of a turn.
    ThreeQuarters,
}

/// From how many children on a node counts as crowded.
pub const CROWDED: usize = 5;

/// How many levels below the root of the view a graph is drawn at least.
pub const DEPTH_LIMIT: usize = 64;

/// The arc of a node `depth` levels below the root with `children_count`
/// children: the root has the full turn, a crowded node three quarters of a
/// turn, any other node a quarter.
pub open spec fn sky_for(depth: nat, children_count: nat) -> SkyArc {
    if depth == 0 {
        SkyArc::Full
    } else if children_count < CROWDED {
        SkyArc::Quarter
    } else {
        SkyArc::ThreeQuarters
    }
}

/// The arc over which a node spreads its children.
pub fn calc_sky(depth: usize, children_count: usize) -> (sky: SkyArc)
    ensures
        sky == sky_for(depth as nat, children_count as nat),
{
    if depth == 0 {
        SkyArc::Full
    } else if children_count < CROWDED {
        SkyArc::Quarter
    } else {
        SkyArc::ThreeQuarters
    }
}

/// The angular offset of the child in slot `idx`, in whole steps from the
/// direction of its parent: 0, -1, 1, -2, 2 and so on, so that the children
/// fan out to both sides in turn.
pub open spec fn zigzag(idx: nat) -> int {
    if idx % 2 == 1 {
        -((idx + 1) / 2)
    } else {
        idx as int / 2
    }
}

/// The angular offset of the child in slot `idx`, in whole steps.
pub fn calc_phase_change(idx: usize) -> (steps: i64)
    ensures
        steps == zigzag(idx as nat),
{
    let half: usize = idx / 2;
    if idx % 2 == 1 {
        -(half as i64) - 1
    } else {
        half as i64
    }
}

/// The children in different slots get different offsets.
pub proof fn lemma_zigzag_distinct(i: nat, j: nat)
    requires
        i != j,
    ensures
        zigzag(i) != zigzag(j),
{
}

/// Among `k` siblings, no offset is more than half of `k` steps away from the
/// parent's direction, and two siblings stand at least one step and fewer
/// than `k` steps apart: spread over an arc of `k` steps, no two children
/// share a direction.
pub proof fn lemma_zigzag_spread(i: nat, j: nat, k: nat)
    requires
        i < k,
        j < k,
        i != j,
    ensures
        -(k as int) <= 2 * zigzag(i) <= k,
        zigzag(i) - zigzag(j) != 0,
        -(k as int) < zigzag(i) - zigzag(j) < k,
{
}

/// One circle of the plan: a node, and where the layout puts it relative to
/// its parent.
#[derive(Debug, PartialEq, Eq)]
pub struct DrawCircle {
    /// The label: the node's name.
    pub name: String,
    /// The node's own colour.
    pub color: Color,
    /// The index, in the plan, of the parent's circle; `None` for the root.
    pub parent: Option<usize>,
    /// The distance from the root.
    pub depth: usize,
    /// The place among the siblings, from 0.
    pub slot: usize,
    /// The angular offset from the parent's direction, in steps of the
    /// parent's arc divided by its number of children.
    pub turns: i64,
    /// The number of children.
    pub fan_out: usize,
    /// The arc over which the node spreads its children.
    pub sky: SkyArc,
    /// Whether the node is crowded, so that its centre is pushed outward.
    pub pushed_out: bool,
}

/// What a `DrawCircle` stands for.
pub struct CircleView {
    pub name: Seq<char>,
    pub color: Color,
    pub parent: Option<nat>,
    pub depth: nat,
    pub slot: nat,
    pub turns: int,
    pub fan_out: nat,
    pub sky: SkyArc,
    pub pushed_out: bool,
}

impl View for DrawCircle {
    type V = CircleView;

    open spec fn view(&self) -> CircleView {
        CircleView {
            name: self.name@,
            color: self.color,
            parent: match self.parent {
                Some(p) => Some(p as nat),
                None => None,
            },
            depth: self.depth as nat,
            slot: self.slot as nat,
            turns: self.turns as int,
            fan_out: self.fan_out as nat,
            sky: self.sky,
            pushed_out: self.pushed_out,
        }
    }
}

/// A connecting line, from the boundary of one circle of the plan to that of
/// another, both given by their index.
#[derive(Debug, Clone, Copy, PartialEq, Eq, Structural)]
pub struct DrawLine {
    pub from: usize,
    pub to: usize,
}

/// What the circles of a plan stand for.
pub open spec fn circle_views(circles: Seq<DrawCircle>) -> Seq<CircleView> {
    circles.map_values(|c: DrawCircle| c@)
}

/// The circle of the root of `t`, hanging from `parent` in slot `slot`.
pub open spec fn circle_of(t: TreeView, parent: Option<nat>, depth: nat, slot: nat) -> CircleView {
    CircleView {
        name: t.name,
        color: t.color,
        parent,
        depth,
        slot,
        turns: zigzag(slot),
        fan_out: t.children.len(),
        sky: sky_for(depth, t.children.len()),
        pushed_out: t.children.len() >= CROWDED,
    }
}

/// The circles of `t` in the order of the plan, where the first of them gets
/// the index `at`: the circle of the root, then the circles of each child's
/// tree, child after child.
pub open spec fn tree_circles(
    t: TreeView,
    at: nat,
    parent: Option<nat>,
    depth: nat,
    slot: nat,
) -> Seq<CircleView>
    decreases t,
{
    seq![circle_of(t, parent, depth, slot)] + forest_circles(t.children, at + 1, at, depth + 1)
}

/// The circles of the trees `ts`, children of the circle `parent`, where the
/// first of them gets the index `first`.
pub open spec fn forest_circles(ts: Seq<TreeView>, first: nat, parent: nat, depth: nat) -> Seq<
    CircleView,
>
    decreases ts,
{
    if ts.len() == 0 {
        Seq::empty()
    } else {
        let front = forest_circles(ts.drop_last(), first, parent, depth);
        front + tree_circles(
            ts.last(),
            first + front.len(),
            Some(parent),
            depth,
            (ts.len() - 1) as nat,
        )
    }
}

/// The lines that go with the circles `cs`: one to every circle but the
/// first, from its parent, in the order of the circles.
pub open spec fn lines_of(cs: Seq<CircleView>) -> Seq<DrawLine> {
    Seq::new(
        (cs.len() - 1) as nat,
        |i: int| DrawLine { from: cs[i + 1].parent.unwrap() as usize, to: (i + 1) as usize },
    )
}

/// A tree has one circle for each of its nodes.
pub proof fn lemma_tree_circles_len(t: TreeView, at: nat, parent: Option<nat>, depth: nat, slot: nat)
    ensures
        tree_circles(t, at, parent, depth, slot).len() == tree_size(t),
    decreases t, 1nat,
{
    lemma_forest_circles_len(t.children, at + 1, at, depth + 1);
}

/// A forest has one circle for each of its nodes.
pub proof fn lemma_forest_circles_len(ts: Seq<TreeView>, first: nat, parent: nat, depth: nat)
    ensures
        forest_circles(ts, first, parent, depth).len() == forest_size(ts),
    decreases ts, 0nat,
{
    if ts.len() > 0 {
        lemma_forest_circles_len(ts.drop_last(), first, parent, depth);
        let front = forest_circles(ts.drop_last(), first, parent, depth);
        lemma_tree_circles_len(
            ts.last(),
            first + front.len(),
            Some(parent),
            depth,
            (ts.len() - 1) as nat,
        );
    }
}

/// Whether the circle `i` of `cs`, whose first circle has the index `at`,
/// hangs from a circle of `cs` that comes before it and lies one level
/// higher.
pub open spec fn hangs_from_earlier(cs: Seq<CircleView>, at: nat, i: int) -> bool {
    match cs[i].parent {
        Some(q) => at <= q < at + i && cs[q - at].depth + 1 == cs[i].depth,
        None => false,
    }
}

/// Whether the circle `i` of the forest `cs` hangs from `parent`, at `depth`,
/// or from an earlier circle of the forest, one level below it.
pub open spec fn hangs_in_forest(
    cs: Seq<CircleView>,
    first: nat,
    parent: nat,
    depth: nat,
    i: int,
) -> bool {
    match cs[i].parent {
        Some(q) => (q == parent && cs[i].depth == depth) || (first <= q < first + i && cs[q
            - first].depth + 1 == cs[i].depth),
        None => false,
    }
}

/// In the circles of a tree every circle but the first hangs from an earlier
/// one, which lies one level higher: parents come before their children.
pub proof fn lemma_parents_come_first(
    t: TreeView,
    at: nat,
    parent: Option<nat>,
    depth: nat,
    slot: nat,
)
    ensures
        tree_circles(t, at, parent, depth, slot)[0] == circle_of(t, parent, depth, slot),
        forall|i: int|
            1 <= i < tree_circles(t, at, parent, depth, slot).len() ==> hangs_from_earlier(
                tree_circles(t, at, parent, depth, slot),
                at,
                i,
            ),
    decreases t, 1nat,
{
    let cs = tree_circles(t, at, parent, depth, slot);
    let below = forest_circles(t.children, at + 1, at, depth + 1);
    lemma_forest_hangs(t.children, at + 1, at, depth + 1);
    assert forall|i: int| 1 <= i < cs.len() implies hangs_from_earlier(cs, at, i) by {
        assert(cs[i] == below[i - 1]);
        assert(hangs_in_forest(below, at + 1, at, depth + 1, i - 1));
        let q = cs[i].parent.unwrap();
        if q != at {
            assert(cs[q - at] == below[q - (at + 1)]);
        }
    }
}

proof fn lemma_forest_hangs(ts: Seq<TreeView>, first: nat, parent: nat, depth: nat)
    ensures
        forall|i: int|
            0 <= i < forest_circles(ts, first, parent, depth).len() ==> hangs_in_forest(
                forest_circles(ts, first, parent, depth),
                first,
                parent,
                depth,
                i,
            ),
    decreases ts, 0nat,
{
    let cs = forest_circles(ts, first, parent, depth);
    if ts.len() > 0 {
        let front = forest_circles(ts.drop_last(), first, parent, depth);
        let slot = (ts.len() - 1) as nat;
        let last = tree_circles(ts.last(), first + front.len(), Some(parent), depth, slot);
        lemma_forest_hangs(ts.drop_last(), first, parent, depth);
        lemma_parents_come_first(ts.last(), first + front.len(), Some(parent), depth, slot);
        assert forall|i: int| 0 <= i < cs.len() implies hangs_in_forest(
            cs,
            first,
            parent,
            depth,
            i,
        ) by {
            if i < front.len() {
                assert(cs[i] == front[i]);
                assert(hangs_in_forest(front, first, parent, depth, i));
                let q = cs[i].parent.unwrap();
                if q != parent || cs[i].depth != depth {
                    assert(cs[q - first] == front[q - first]);
                }
            } else {
                let j = i - front.len();
                assert(cs[i] == last[j]);
                if j > 0 {
                    assert(hangs_from_earlier(last, first + front.len(), j));
                    let q = last[j].parent.unwrap();
                    assert(cs[q - first] == last[q - first - front.len()]);
                }
            }
        }
    }
}

/// Whether `lines` are the lines that go with `circles`.
pub open spec fn lines_match(circles: Seq<DrawCircle>, lines: Seq<DrawLine>) -> bool {
    &&& lines.len() + 1 == circles.len()
    &&& forall|i: int|
        0 <= i < lines.len() ==> (#[trigger] lines[i]).to == i + 1 && circles[i + 1].parent
            == Some(lines[i].from)
}

/// A draw plan: the circles, parents before children and siblings in the
/// order of their slots, and the lines that connect each circle but the
/// first to its parent.
#[derive(Debug, PartialEq, Eq)]
pub struct DrawingPlan {
    pub circles: Vec<DrawCircle>,
    pub lines: Vec<DrawLine>,
}

fn place(
    node: &TreeNode,
    parent: Option<usize>,
    depth: usize,
    slot: usize,
    circles: &mut Vec<DrawCircle>,
    lines: &mut Vec<DrawLine>,
)
    requires
        depth <= old(circles).len(),
        match parent {
            Some(p) => p < old(circles).len() && lines_match(old(circles)@, old(lines)@),
            None => old(circles).len() == 0 && old(lines).len() == 0,
        },
    ensures
        circle_views(final(circles)@) == circle_views(old(circles)@) + tree_circles(
            node@,
            old(circles).len() as nat,
            match parent {
                Some(p) => Some(p as nat),
                None => None,
            },
            depth as nat,
            slot as nat,
        ),
        lines_match(final(circles)@, final(lines)@),
    decreases node,
{
    proof {
        lemma_node_view(*node);
    }
    let at = circles.len();
    if let Some(p) = parent {
        lines.push(DrawLine { from: p, to: at });
    }
    let fan_out = node.children.len();
    circles.push(
        DrawCircle {
            name: node.name.clone(),
            color: node.color,
            parent,
            depth,
            slot,
            turns: calc_phase_change(slot),
            fan_out,
            sky: calc_sky(depth, fan_out),
            pushed_out: fan_out >= CROWDED,
        },
    );
    let ghost before = circle_views(old(circles)@);
    let ghost own = circle_of(
        node@,
        match parent {
            Some(p) => Some(p as nat),
            None => None,
        },
        depth as nat,
        slot as nat,
    );
    proof {
        assert(circle_views(circles@) == before.push(own));
        assert(node@.children.take(0) == Seq::<TreeView>::empty());
        assert(before.push(own) == before + seq![own] + forest_circles(
            node@.children.take(0),
            (at + 1) as nat,
            at as nat,
            (depth + 1) as nat,
        ));
    }
    let mut i: usize = 0;
    while i < node.children.len()
        invariant
            i <= node.children.len(),
            at == old(circles).len(),
            at < circles.len(),
            depth <= at,
            before == circle_views(old(circles)@),
            node@.children.len() == node.children.len(),
            forall|k: int|
                0 <= k < node.children.len() ==> node@.children[k] == (#[trigger] node.children[k])@,
            circle_views(circles@) == before + seq![own] + forest_circles(
                node@.children.take(i as int),
                (at + 1) as nat,
                at as nat,
                (depth + 1) as nat,
            ),
            lines_match(circles@, lines@),
        decreases node.children.len() - i,
    {
        let ghost done = forest_circles(
            node@.children.take(i as int),
            (at + 1) as nat,
            at as nat,
            (depth + 1) as nat,
        );
        let ghost so_far = circle_views(circles@);
        proof {
            assert(circles.len() == so_far.len());
            assert(node@.children.take(i + 1).drop_last() == node@.children.take(i as int));
            assert(node@.children.take(i + 1).last() == node.children[i as int]@);
        }
        place(&node.children[i], Some(at), depth + 1, i, circles, lines);
        proof {
            let grown = tree_circles(
                node.children[i as int]@,
                (at + 1 + done.len()) as nat,
                Some(at as nat),
                (depth + 1) as nat,
                i as nat,
            );
            assert(before + seq![own] + done + grown == before + seq![own] + (done + grown));
        }
        i += 1;
    }
    proof {
        assert(node@.children.take(i as int) == node@.children);
        assert(before + seq![own] + forest_circles(
            node@.children,
            (at + 1) as nat,
            at as nat,
            (depth + 1) as nat,
        ) == before + (seq![own] + forest_circles(
            node@.children,
            (at + 1) as nat,
            at as nat,
            (depth + 1) as nat,
        )));
    }
}

impl DrawingPlan {
    /// Lays out the tree of `root`: one circle for every node, the root
    /// first, each node before its children and the children in the order of
    /// their slots; and one line to every circle but the first.
    pub fn new(root: &TreeNode) -> (plan: DrawingPlan)
        ensures
            circle_views(plan.circles@) == tree_circles(root@, 0, None, 0, 0),
            plan.lines@ == lines_of(circle_views(plan.circles@)),
            plan.circles.len() == tree_size(root@),
            plan.lines.len() == tree_size(root@) - 1,
    {
        let mut circles: Vec<DrawCircle> = Vec::new();
        let mut lines: Vec<DrawLine> = Vec::new();
        place(root, None, 0, 0, &mut circles, &mut lines);
        proof {
            lemma_tree_circles_len(root@, 0, None, 0, 0);
            assert(circle_views(Seq::<DrawCircle>::empty()) + tree_circles(root@, 0, None, 0, 0)
                == tree_circles(root@, 0, None, 0, 0));
            assert(circles.len() == circle_views(circles@).len());
            assert(lines@ == lines_of(circle_views(circles@)));
        }
        DrawingPlan { circles, lines }
    }
}

/// How a circle is painted.
#[derive(Debug, Clone, Copy, PartialEq, Eq, Structural)]
pub enum Shade {
    /// In the node's own colour.
    Own,
    /// Between the node's own colour and the colour of built components,
    /// pulsing with time: the component is building.
    Building,
    /// In the colour of built components.
    Done,
}

/// The colour of built components, a pale green.
pub fn completed_task_color() -> (color: Color)
    ensures
        color == (Color { red: 0x98, green: 0xfb, blue: 0x98 }),
{
    Color { red: 0x98, green: 0xfb, blue: 0x98 }
}

/// How the circle of `name` is painted: a built component counts as built
/// even where it is also named as building.
pub open spec fn shade_for(
    name: Seq<char>,
    completed: Set<Seq<char>>,
    active: Set<Seq<char>>,
) -> Shade {
    if completed.contains(name) {
        Shade::Done
    } else if active.contains(name) {
        Shade::Building
    } else {
        Shade::Own
    }
}

/// How each circle of the plan is painted, given the names built and the
/// names building.
pub fn draw_deps(plan: &DrawingPlan, completed: &NameSet, active: &NameSet) -> (shades: Vec<Shade>)
    ensures
        shades.len() == plan.circles.len(),
        forall|i: int|
            0 <= i < shades.len() ==> #[trigger] shades[i] == shade_for(
                plan.circles[i].name@,
                completed@,
                active@,
            ),
{
    let mut shades: Vec<Shade> = Vec::new();
    let mut i: usize = 0;
    while i < plan.circles.len()
        invariant
            i <= plan.circles.len(),
            shades.len() == i,
            forall|j: int|
                0 <= j < i ==> #[trigger] shades[j] == shade_for(
                    plan.circles[j].name@,
                    completed@,
                    active@,
                ),
        decreases plan.circles.len() - i,
    {
        let name = plan.circles[i].name.as_str();
        let shade = if completed.contains(name) {
            Shade::Done
        } else if active.contains(name) {
            Shade::Building
        } else {
            Shade::Own
        };
        shades.push(shade);
        i += 1;
    }
    shades
}

/// The first index at or after `i` at which `hits` holds `true`, or
/// `hits.len()`.
pub open spec fn first_hit(hits: Seq<bool>, i: int) -> int
    decreases hits.len() - i,
{
    if i < 0 || i >= hits.len() {
        hits.len() as int
    } else if hits[i] {
        i
    } else {
        first_hit(hits, i + 1)
    }
}

/// The entries of `inside` that have a circle among the first `circles`.
pub open spec fn considered(inside: Seq<bool>, circles: nat) -> Seq<bool> {
    if inside.len() <= circles {
        inside
    } else {
        inside.take(circles as int)
    }
}

/// The name of the first circle of the plan that holds the point clicked,
/// where `inside[i]` tells whether the circle `i` holds it: a parent is found
/// before its children, a sibling before the siblings in later slots. `None`
/// where no circle holds the point. Circles for which `inside` has no entry
/// count as not holding it.
pub fn find_dep_by_pos(plan: &DrawingPlan, inside: &Vec<bool>) -> (name: Option<String>)
    ensures
        match name {
            Some(n) => {
                let hit = first_hit(considered(inside@, plan.circles.len() as nat), 0);
                &&& 0 <= hit < plan.circles.len()
                &&& hit < inside.len()
                &&& n@ == plan.circles@[hit].name@
            },
            None => first_hit(considered(inside@, plan.circles.len() as nat), 0) == considered(
                inside@,
                plan.circles.len() as nat,
            ).len(),
        },
{
    let count = if inside.len() <= plan.circles.len() {
        inside.len()
    } else {
        plan.circles.len()
    };
    let ghost hits = considered(inside@, plan.circles.len() as nat);
    let mut i: usize = 0;
    while i < count
        invariant
            i <= count,
            count == hits.len(),
            count <= plan.circles.len(),
            count <= inside.len(),
            hits == considered(inside@, plan.circles.len() as nat),
            forall|j: int| 0 <= j < count ==> hits[j] == inside@[j],
            first_hit(hits, 0) == first_hit(hits, i as int),
        decreases count - i,
    {
        if inside[i] {
            assert(hits[i as int]);
            assert(first_hit(hits, i as int) == i);
            let name = plan.circles[i].name.clone();
            assert(name@ == plan.circles@[i as int].name@);
            return Some(name);
        }
        assert(!hits[i as int]);
        i += 1;
    }
    None
}

} // verus!
