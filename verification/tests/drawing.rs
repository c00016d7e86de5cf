use depviz::drawing::{
    calc_phase_change, calc_sky, completed_task_color, draw_deps, find_dep_by_pos, Color,
    DrawLine, DrawingPlan, Shade, SkyArc,
};
use depviz::name_set::NameSet;
use depviz::parse_cargo_tree_output::{parse_tree, TreeNode};

fn leaf(name: &str) -> TreeNode {
    TreeNode { name: name.to_string(), children: vec![], color: Color { red: 1, green: 2, blue: 3 } }
}

#[test]
fn end_to_end_plan_has_four_circles_and_three_lines() {
    let root = parse_tree("0 root v1\n1 left v1\n1 right v1\n2 leaf v1".to_string()).unwrap();
    let plan = DrawingPlan::new(&root);
    assert_eq!(plan.circles.len(), 4);
    assert_eq!(plan.lines.len(), 3);
    let names: Vec<&str> = plan.circles.iter().map(|c| c.name.as_str()).collect();
    assert_eq!(names, vec!["root 1", "left 1", "right 1", "leaf 1"]);
    assert_eq!(
        plan.lines,
        vec![
            DrawLine { from: 0, to: 1 },
            DrawLine { from: 0, to: 2 },
            DrawLine { from: 2, to: 3 },
        ]
    );
    assert_eq!(plan.circles[0].parent, None);
    assert_eq!(plan.circles[0].sky, SkyArc::Full);
    assert_eq!(plan.circles[0].fan_out, 2);
    assert_eq!(plan.circles[2].parent, Some(0));
    assert_eq!(plan.circles[2].slot, 1);
    assert_eq!(plan.circles[2].turns, -1);
    assert_eq!(plan.circles[2].depth, 1);
    assert_eq!(plan.circles[2].sky, SkyArc::Quarter);
    assert_eq!(plan.circles[3].parent, Some(2));
    assert_eq!(plan.circles[3].depth, 2);
    assert_eq!(plan.circles[3].color, root.children[1].children[0].color);
}

#[test]
fn single_node_plan() {
    let plan = DrawingPlan::new(&leaf("only"));
    assert_eq!(plan.circles.len(), 1);
    assert!(plan.lines.is_empty());
    assert!(!plan.circles[0].pushed_out);
}

#[test]
fn crowded_node_is_pushed_out_and_gets_three_quarters() {
    let mut crowded = leaf("crowded");
    for i in 0..5 {
        crowded.children.push(leaf(&format!("c{}", i)));
    }
    let mut root = leaf("root");
    root.children.push(crowded);
    let plan = DrawingPlan::new(&root);
    assert_eq!(plan.circles.len(), 7);
    assert!(plan.circles[1].pushed_out);
    assert_eq!(plan.circles[1].sky, SkyArc::ThreeQuarters);
    let turns: Vec<i64> = plan.circles[2..].iter().map(|c| c.turns).collect();
    assert_eq!(turns, vec![0, -1, 1, -2, 2]);
    assert!(plan.circles[2..].iter().all(|c| c.parent == Some(1)));
}

#[test]
fn sky_by_depth_and_fan_out() {
    assert_eq!(calc_sky(0, 0), SkyArc::Full);
    assert_eq!(calc_sky(0, 9), SkyArc::Full);
    assert_eq!(calc_sky(1, 4), SkyArc::Quarter);
    assert_eq!(calc_sky(1, 5), SkyArc::ThreeQuarters);
    assert_eq!(calc_sky(7, 0), SkyArc::Quarter);
}

#[test]
fn zigzag_steps() {
    let steps: Vec<i64> = (0..7).map(calc_phase_change).collect();
    assert_eq!(steps, vec![0, -1, 1, -2, 2, -3, 3]);
    assert_eq!(calc_phase_change(usize::MAX - 1), ((usize::MAX - 1) / 2) as i64);
}

#[test]
fn zigzag_steps_of_siblings_differ() {
    for k in 1..13usize {
        for i in 0..k {
            assert!(2 * calc_phase_change(i).abs() <= k as i64);
            for j in 0..i {
                let gap = (calc_phase_change(i) - calc_phase_change(j)).abs();
                assert!(gap >= 1 && gap < k as i64);
            }
        }
    }
}

#[test]
fn first_circle_that_holds_the_point_wins() {
    let root = parse_tree("0 root v1\n1 left v1\n1 right v1\n2 leaf v1".to_string()).unwrap();
    let plan = DrawingPlan::new(&root);
    assert_eq!(find_dep_by_pos(&plan, &vec![false, false, true, true]), Some("right 1".to_string()));
    assert_eq!(find_dep_by_pos(&plan, &vec![true, false, true, true]), Some("root 1".to_string()));
    assert_eq!(find_dep_by_pos(&plan, &vec![false, false, false, false]), None);
    assert_eq!(find_dep_by_pos(&plan, &vec![false]), None);
    assert_eq!(find_dep_by_pos(&plan, &vec![false, false, false, false, true]), None);
}

#[test]
fn each_circle_alone_is_found_as_itself() {
    let root = parse_tree("0 root v1\n1 left v1\n1 right v1\n2 leaf v1".to_string()).unwrap();
    let plan = DrawingPlan::new(&root);
    for i in 0..plan.circles.len() {
        let mut inside = vec![false; plan.circles.len()];
        inside[i] = true;
        assert_eq!(find_dep_by_pos(&plan, &inside), Some(plan.circles[i].name.clone()));
    }
}

#[test]
fn built_components_are_painted_done_building_ones_pulse() {
    let root = parse_tree("0 root v1\n1 left v1\n1 right v1\n2 leaf v1".to_string()).unwrap();
    let plan = DrawingPlan::new(&root);
    let mut completed = NameSet::new();
    let mut active = NameSet::new();
    completed.insert("left 1".to_string());
    active.insert("left 1".to_string());
    active.insert("leaf 1".to_string());
    assert_eq!(
        draw_deps(&plan, &completed, &active),
        vec![Shade::Own, Shade::Done, Shade::Own, Shade::Building]
    );
    assert_eq!(completed_task_color(), Color { red: 0x98, green: 0xfb, blue: 0x98 });
}
