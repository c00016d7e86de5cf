use depviz::dependency_tree::{color_of_checksum, DependencyTree};
use depviz::drawing::Color;
use depviz::parse_cargo_tree_output::ParseError;

fn names_of_children(tree: &DependencyTree, name: &str) -> Vec<String> {
    let mut walk = tree.get(name).unwrap().into_iter();
    let mut names = Vec::new();
    while let Some(dep) = walk.next() {
        names.push(dep.name().to_string());
    }
    names
}

#[test]
fn graph_of_a_listing() {
    let tree = DependencyTree::new("0root v1\n1left v1\n1right v1\n2leaf v1\n".to_string()).unwrap();
    let root = tree.root();
    assert_eq!(root.name(), "root 1");
    assert_eq!(root.children_count(), 2);
    assert_eq!(names_of_children(&tree, "root 1"), vec!["left 1", "right 1"]);
    assert_eq!(names_of_children(&tree, "right 1"), vec!["leaf 1"]);
    assert_eq!(tree.get("leaf 1").unwrap().children_count(), 0);
    assert!(tree.get("missing 1").is_none());
}

#[test]
fn a_component_named_twice_is_one_node() {
    let tree = DependencyTree::new("0 r v1\n1 a v1\n2 c v1\n1 b v1\n2 c v1\n2 d v1\n1 a v1".to_string()).unwrap();
    assert_eq!(names_of_children(&tree, "r 1"), vec!["a 1", "b 1"]);
    assert_eq!(names_of_children(&tree, "a 1"), vec!["c 1"]);
    assert_eq!(names_of_children(&tree, "b 1"), vec!["c 1", "d 1"]);
}

#[test]
fn a_component_on_its_own_path_is_passed_over() {
    let tree = DependencyTree::new("0 r v1\n1 a v1\n2 r v1\n3 x v1".to_string()).unwrap();
    assert_eq!(names_of_children(&tree, "a 1"), vec!["x 1"]);
    assert_eq!(names_of_children(&tree, "r 1"), vec!["a 1"]);
}

#[test]
fn the_root_is_the_top_of_the_last_path() {
    let tree = DependencyTree::new("0 a v1\n1 b v1\n0 c v1\n1 d v1".to_string()).unwrap();
    assert_eq!(tree.root().name(), "c 1");
    assert_eq!(names_of_children(&tree, "a 1"), vec!["b 1"]);
}

#[test]
fn graph_errors() {
    assert!(matches!(DependencyTree::new("".to_string()), Err(ParseError::BadFirstLine)));
    assert!(matches!(
        DependencyTree::new("0 a v1\n99999999999999999999999 b v1".to_string()),
        Err(ParseError::DepthOverflow)
    ));
}

#[test]
fn walk_counts_its_steps() {
    let tree = DependencyTree::new("0 r v1\n1 a v1\n1 b v1".to_string()).unwrap();
    let mut walk = tree.root().into_iter();
    assert_eq!(walk.name(), "r 1");
    assert_eq!(walk.len(), 2);
    assert_eq!(walk.index(), None);
    assert_eq!(walk.next().unwrap().name(), "a 1");
    assert_eq!(walk.index(), Some(0));
    assert_eq!(walk.next().unwrap().name(), "b 1");
    assert_eq!(walk.index(), Some(1));
    assert!(walk.next().is_none());
    assert_eq!(walk.index(), Some(1));
    assert_eq!(walk.len(), 2);
}

#[test]
fn colour_is_the_checksum_of_the_name() {
    let tree = DependencyTree::new("0 root v1".to_string()).unwrap();
    let sum = crc::crc32::checksum_ieee(b"root 1");
    assert_eq!(
        tree.root().color(),
        Color { red: sum as u8, green: (sum >> 8) as u8, blue: (sum >> 16) as u8 }
    );
}

#[test]
fn colour_of_a_checksum() {
    assert_eq!(color_of_checksum(0xcbf43926), Color { red: 0x26, green: 0x39, blue: 0xf4 });
    assert_eq!(color_of_checksum(0), Color { red: 0, green: 0, blue: 0 });
}

#[test]
fn unfolding_repeats_shared_components() {
    let tree = DependencyTree::new("0 r v1\n1 a v1\n2 c v1\n1 b v1\n2 c v1".to_string()).unwrap();
    let root = tree.root().unfold(8);
    assert_eq!(root.name, "r 1");
    assert_eq!(root.color, tree.root().color());
    assert_eq!(root.children.len(), 2);
    assert_eq!(root.children[0].name, "a 1");
    assert_eq!(root.children[0].children[0].name, "c 1");
    assert_eq!(root.children[1].children[0].name, "c 1");
    assert_eq!(root.children[1].children[0].children.len(), 0);
}

#[test]
fn unfolding_stops_at_the_limit() {
    let tree = DependencyTree::new("0 a v1\n1 b v1\n0 b v1\n1 a v1".to_string()).unwrap();
    let top = tree.get("a 1").unwrap().unfold(0);
    assert_eq!(top.children.len(), 0);
    let two = tree.get("a 1").unwrap().unfold(2);
    assert_eq!(two.children[0].name, "b 1");
    assert_eq!(two.children[0].children[0].name, "a 1");
    assert_eq!(two.children[0].children[0].children.len(), 0);
}

#[test]
fn current_root_follows_the_choice() {
    let tree = DependencyTree::new("0 r v1\n1 a v1".to_string()).unwrap();
    assert_eq!(tree.current_root(None).unwrap().name(), "r 1");
    assert_eq!(tree.current_root(Some("a 1")).unwrap().name(), "a 1");
    assert!(tree.current_root(Some("zz 1")).is_none());
}

#[test]
fn plan_of_a_component() {
    let tree = DependencyTree::new("0 r v1\n1 a v1\n2 c v1\n1 b v1\n2 c v1".to_string()).unwrap();
    let plan = tree.root().plan();
    let names: Vec<&str> = plan.circles.iter().map(|c| c.name.as_str()).collect();
    assert_eq!(names, vec!["r 1", "a 1", "c 1", "b 1", "c 1"]);
    assert_eq!(plan.lines.len(), 4);
    assert_eq!(tree.get("b 1").unwrap().plan().circles.len(), 2);
}

#[test]
fn plan_stops_at_the_depth_limit() {
    let tree = DependencyTree::new("0 a v1\n1 b v1\n0 b v1\n1 a v1".to_string()).unwrap();
    let plan = tree.root().plan();
    assert_eq!(plan.circles.len(), depviz::drawing::DEPTH_LIMIT + 1);
    assert_eq!(plan.circles.last().unwrap().depth, depviz::drawing::DEPTH_LIMIT);
}

#[test]
fn each_line_is_linked_to_its_parent_line() {
    // Lines: r(0) a(1) b(2) c(1) d(2) b(2); parent lines: a->r, b->a, c->r, d->c, b->c.
    let tree = DependencyTree::new("0 r v1\n1 a v1\n2 b v1\n1 c v1\n2 d v1\n2 b v1".to_string()).unwrap();
    assert_eq!(tree.root().name(), "r 1");
    assert_eq!(names_of_children(&tree, "r 1"), vec!["a 1", "c 1"]);
    assert_eq!(names_of_children(&tree, "a 1"), vec!["b 1"]);
    assert_eq!(names_of_children(&tree, "c 1"), vec!["d 1", "b 1"]);
    assert_eq!(names_of_children(&tree, "b 1"), Vec::<String>::new());
    assert_eq!(names_of_children(&tree, "d 1"), Vec::<String>::new());
}

#[test]
fn a_deep_graph_without_a_loop_is_drawn_whole() {
    let mut listing = String::new();
    for depth in 0..100 {
        listing.push_str(&format!("{} c{} v1\n", depth, depth));
    }
    let tree = DependencyTree::new(listing).unwrap();
    assert_eq!(tree.len(), 100);
    let plan = tree.root().plan();
    assert_eq!(tree.root().name(), "c0 1");
    assert_eq!(plan.circles.len(), 100);
    assert_eq!(plan.circles[99].name, "c99 1");
    assert_eq!(plan.circles[99].depth, 99);
    assert_eq!(plan.lines.len(), 99);
}
