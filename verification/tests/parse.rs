use depviz::identity::crate_name_from_package_id;
use depviz::parse_cargo_tree_output::{parse, parse_tree, FlatEntry, ParseError};
use depviz::text::{class_has, CharClass};

#[test]
fn package_id_with_source_suffix() {
    assert_eq!(
        crate_name_from_package_id("serde_json v1.0.64 (registry+https://github.com/rust-lang/crates.io-index)"),
        Some("serde-json 1.0.64".to_string())
    );
}

#[test]
fn package_id_without_version_marker() {
    assert_eq!(crate_name_from_package_id("  foo 0.1.0  "), Some("foo 0.1.0".to_string()));
}

#[test]
fn package_id_without_version_has_no_identity() {
    assert_eq!(crate_name_from_package_id("serde"), None);
    assert_eq!(crate_name_from_package_id(""), None);
}

#[test]
fn parse_reads_depth_and_identity() {
    let entries = parse("0 my-app v0.1.0\n1 serde v1.0.130\n".to_string()).unwrap();
    assert_eq!(
        entries,
        vec![
            FlatEntry { depth: 0, name: "my-app 0.1.0".to_string() },
            FlatEntry { depth: 1, name: "serde 1.0.130".to_string() },
        ]
    );
}

#[test]
fn parse_rejects_bad_first_line() {
    assert_eq!(parse("".to_string()), Err(ParseError::BadFirstLine));
    assert_eq!(parse("root v1\n1 a v1".to_string()), Err(ParseError::BadFirstLine));
}

#[test]
fn parse_skips_malformed_later_lines() {
    let entries = parse("0 root v1\n\nnonsense\n1 a_b v2\r\n12".to_string()).unwrap();
    assert_eq!(entries.len(), 2);
    assert_eq!(entries[1], FlatEntry { depth: 1, name: "a-b 2".to_string() });
}

#[test]
fn parse_reports_depth_overflow() {
    let text = "0 root v1\n99999999999999999999999999999999999999 a v1".to_string();
    assert_eq!(parse(text), Err(ParseError::DepthOverflow));
}

#[test]
fn end_to_end_tree_shape() {
    let root = parse_tree("0 root v1\n1 left v1\n1 right v1\n2 leaf v1".to_string()).unwrap();
    assert_eq!(root.name, "root 1");
    assert_eq!(root.children.len(), 2);
    assert_eq!(root.children[0].name, "left 1");
    assert_eq!(root.children[0].children.len(), 0);
    assert_eq!(root.children[1].name, "right 1");
    assert_eq!(root.children[1].children.len(), 1);
    assert_eq!(root.children[1].children[0].name, "leaf 1");
}

#[test]
fn colour_is_the_md5_of_the_name() {
    let root = parse_tree("0 root v1".to_string()).unwrap();
    let digest = md5::compute("root 1");
    assert_eq!((root.color.red, root.color.green, root.color.blue), (digest[0], digest[1], digest[2]));
}

#[test]
fn package_id_trims_unicode_white_space() {
    assert_eq!(
        crate_name_from_package_id("\u{a0}\tfoo v1.2\u{2003}\n"),
        Some("foo 1.2".to_string())
    );
}

#[test]
fn package_id_splits_at_last_space() {
    assert_eq!(crate_name_from_package_id("a b_c vv2"), Some("a b-c v2".to_string()));
    assert_eq!(crate_name_from_package_id("x_y 3 (path+file:///z w)"), Some("x-y 3".to_string()));
}

#[test]
fn children_are_ordered_by_descendants_ties_in_listing_order() {
    let text = "0 r v1\n1 big v1\n2 b1 v1\n2 b2 v1\n1 leaf1 v1\n1 mid v1\n2 m1 v1\n1 leaf2 v1";
    let root = parse_tree(text.to_string()).unwrap();
    let names: Vec<&str> = root.children.iter().map(|c| c.name.as_str()).collect();
    assert_eq!(names, vec!["leaf1 1", "leaf2 1", "mid 1", "big 1"]);
}

#[test]
fn children_are_ordered_by_descendants_not_by_direct_children() {
    // `deep` has one child and three descendants, `wide` two children and two descendants.
    let text = "0 r v1\n1 deep v1\n2 d1 v1\n3 d2 v1\n4 d3 v1\n1 wide v1\n2 w1 v1\n2 w2 v1";
    let root = parse_tree(text.to_string()).unwrap();
    let names: Vec<&str> = root.children.iter().map(|c| c.name.as_str()).collect();
    assert_eq!(names, vec!["wide 1", "deep 1"]);
}

#[test]
fn parsing_twice_gives_the_same_tree() {
    let text = "0 r v1\n1 a v1\n2 b v1\n1 c v1\n1 a v1\n2 b v1";
    assert_eq!(parse_tree(text.to_string()), parse_tree(text.to_string()));
}

#[test]
fn repeated_components_are_kept() {
    let root = parse_tree("0 r v1\n1 a v1\n1 a v1".to_string()).unwrap();
    assert_eq!(root.children.len(), 2);
    assert_eq!(root.children[0], root.children[1]);
}

#[test]
fn entries_without_a_parent_are_dropped() {
    let root = parse_tree("0 r v1\n2 orphan v1\n1 a v1\n3 lost v1\n0 other v1\n1 x v1".to_string()).unwrap();
    assert_eq!(root.children.len(), 1);
    assert_eq!(root.children[0].name, "a 1");
    assert_eq!(root.children[0].children.len(), 0);
}

#[test]
fn well_formed_listing_keeps_every_entry_at_its_depth() {
    let text = "3 r v1\n4 a v1\n5 b v1\n5 c v1\n4 d v1";
    let root = parse_tree(text.to_string()).unwrap();
    fn walk(node: &depviz::parse_cargo_tree_output::TreeNode, depth: usize, out: &mut Vec<(String, usize)>) {
        out.push((node.name.clone(), depth));
        for child in &node.children {
            walk(child, depth + 1, out);
        }
    }
    let mut seen = Vec::new();
    walk(&root, 0, &mut seen);
    seen.sort();
    let mut expected = vec![
        ("r 1".to_string(), 0),
        ("a 1".to_string(), 1),
        ("b 1".to_string(), 2),
        ("c 1".to_string(), 2),
        ("d 1".to_string(), 1),
    ];
    expected.sort();
    assert_eq!(seen, expected);
}

#[test]
fn tree_of_entries() {
    let flat = vec![
        FlatEntry { depth: 0, name: "r".to_string() },
        FlatEntry { depth: 1, name: "a".to_string() },
    ];
    let root = depviz::parse_cargo_tree_output::tree(flat);
    assert_eq!(root.name, "r");
    assert_eq!(root.children.len(), 1);
    let digest = md5::compute("a");
    assert_eq!(root.children[0].color.red, digest[0]);
}

#[test]
fn parse_tree_reports_errors() {
    assert_eq!(parse_tree("x".to_string()), Err(ParseError::BadFirstLine));
    assert_eq!(parse_tree("0 only".to_string()), Err(ParseError::BadFirstLine));
    assert_eq!(
        parse_tree("340282366920938463463374607431768211456 a v1".to_string()),
        Err(ParseError::DepthOverflow)
    );
}

#[test]
fn white_space_is_what_the_standard_library_takes_for_it() {
    for code in 0..=0x10ffffu32 {
        if let Some(c) = char::from_u32(code) {
            assert_eq!(class_has(CharClass::Space, c), c.is_whitespace(), "U+{:04X}", code);
        }
    }
}
