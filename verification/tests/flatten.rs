use gltf_explorer::scene_tree::{tree, NodeInfo, NodeKind, TreeNode};
use gltf_explorer::tree::LevelInfo;

fn scene(name: &'static str, children: Vec<TreeNode<NodeInfo<'static>>>) -> TreeNode<NodeInfo<'static>> {
    TreeNode {
        item: NodeInfo::from_scene(0, Some(name), false),
        children,
    }
}

fn node(index: usize, name: &'static str, children: Vec<TreeNode<NodeInfo<'static>>>) -> TreeNode<NodeInfo<'static>> {
    TreeNode {
        item: NodeInfo::from_node(index, Some(name)),
        children,
    }
}

fn names(flat: &gltf_explorer::tree::Flattened<NodeInfo<'static>>) -> Vec<&'static str> {
    flat.items.iter().map(|i| i.name.unwrap()).collect()
}

#[test]
fn single_node_is_only_child_at_depth_zero() {
    let forest = vec![scene("root", vec![])];
    let flat = tree(&forest);
    assert_eq!(names(&flat), vec!["root"]);
    assert_eq!(flat.levels, vec![LevelInfo::OnlyChild(0)]);
}

#[test]
fn forest_of_two_roots_is_first_then_last() {
    let forest = vec![scene("R1", vec![]), scene("R2", vec![])];
    let flat = tree(&forest);
    assert_eq!(names(&flat), vec!["R1", "R2"]);
    assert_eq!(
        flat.levels,
        vec![LevelInfo::FirstChild(0), LevelInfo::LastChild(0)]
    );
}

#[test]
fn corrections_applied_across_descent() {
    // root -> {A, B}, A -> {A1}
    let forest = vec![scene(
        "root",
        vec![node(1, "A", vec![node(2, "A1", vec![])]), node(3, "B", vec![])],
    )];
    let flat = tree(&forest);
    assert_eq!(names(&flat), vec!["root", "A", "A1", "B"]);
    assert_eq!(
        flat.levels,
        vec![
            LevelInfo::OnlyChild(0),
            LevelInfo::FirstChild(1),
            LevelInfo::OnlyChild(2),
            LevelInfo::LastChild(1),
        ]
    );
}

#[test]
fn middle_sibling_becomes_sibling() {
    let forest = vec![scene(
        "root",
        vec![
            node(1, "a", vec![]),
            node(2, "b", vec![]),
            node(3, "c", vec![]),
        ],
    )];
    let flat = tree(&forest);
    assert_eq!(names(&flat), vec!["root", "a", "b", "c"]);
    assert_eq!(
        flat.levels,
        vec![
            LevelInfo::OnlyChild(0),
            LevelInfo::FirstChild(1),
            LevelInfo::Sibling(1),
            LevelInfo::LastChild(1),
        ]
    );
}

#[test]
fn full_ascent_returns_to_depth_zero() {
    // root1 -> a -> b, then root2: the uncle transition from b climbs the
    // whole stack and must land at depth 0.
    let forest = vec![
        scene("root1", vec![node(1, "a", vec![node(2, "b", vec![])])]),
        scene("root2", vec![]),
    ];
    let flat = tree(&forest);
    assert_eq!(names(&flat), vec!["root1", "a", "b", "root2"]);
    assert_eq!(
        flat.levels,
        vec![
            LevelInfo::FirstChild(0),
            LevelInfo::OnlyChild(1),
            LevelInfo::OnlyChild(2),
            LevelInfo::LastChild(0),
        ]
    );
}

#[test]
fn output_has_one_record_per_node_in_preorder() {
    let forest = vec![
        scene(
            "S1",
            vec![
                node(1, "n1", vec![node(2, "n2", vec![]), node(3, "n3", vec![])]),
                node(4, "n4", vec![]),
            ],
        ),
        scene("S2", vec![node(5, "n5", vec![])]),
    ];
    let flat = tree(&forest);
    assert_eq!(flat.items.len(), 7);
    assert_eq!(flat.levels.len(), 7);
    assert_eq!(names(&flat), vec!["S1", "n1", "n2", "n3", "n4", "S2", "n5"]);
    let depths: Vec<usize> = flat.levels.iter().map(|l| l.level()).collect();
    assert_eq!(depths, vec![0, 1, 2, 2, 1, 0, 1]);
}

#[test]
fn flattening_twice_yields_identical_output() {
    let forest = vec![scene(
        "root",
        vec![node(1, "A", vec![node(2, "A1", vec![])]), node(3, "B", vec![])],
    )];
    let once = tree(&forest);
    let again = tree(&forest);
    assert_eq!(once.items, again.items);
    assert_eq!(once.levels, again.levels);
}

#[test]
fn empty_forest_flattens_to_nothing() {
    let forest: Vec<TreeNode<NodeInfo<'static>>> = vec![];
    let flat = tree(&forest);
    assert_eq!(flat.items.len(), 0);
    assert_eq!(flat.levels.len(), 0);
}

#[test]
fn level_returns_the_depth_of_each_variant() {
    assert_eq!(LevelInfo::FirstChild(3).level(), 3);
    assert_eq!(LevelInfo::Sibling(2).level(), 2);
    assert_eq!(LevelInfo::LastChild(1).level(), 1);
    assert_eq!(LevelInfo::OnlyChild(0).level(), 0);
}

#[test]
fn node_info_constructors_fill_all_fields() {
    let s = NodeInfo::from_scene(4, Some("s"), true);
    assert_eq!(s.index, 4);
    assert_eq!(s.name, Some("s"));
    assert_eq!(s.kind_info, NodeKind::Scene { is_default: true });
    let n = NodeInfo::from_node(7, None);
    assert_eq!(n.index, 7);
    assert_eq!(n.name, None);
    assert_eq!(n.kind_info, NodeKind::Node);
}

#[test]
fn flattened_len_counts_records() {
    let forest = vec![scene("root", vec![node(1, "a", vec![])])];
    let flat = tree(&forest);
    assert_eq!(flat.len(), 2);
}
