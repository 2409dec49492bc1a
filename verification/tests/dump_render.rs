use gltf_explorer::dump::render_dump;
use gltf_explorer::scene_tree::{tree, NodeInfo, TreeNode};

fn scene_named(
    name: Option<&'static str>,
    is_default: bool,
    children: Vec<TreeNode<NodeInfo<'static>>>,
) -> TreeNode<NodeInfo<'static>> {
    TreeNode {
        item: NodeInfo::from_scene(0, name, is_default),
        children,
    }
}

fn node(
    index: usize,
    name: Option<&'static str>,
    children: Vec<TreeNode<NodeInfo<'static>>>,
) -> TreeNode<NodeInfo<'static>> {
    TreeNode {
        item: NodeInfo::from_node(index, name),
        children,
    }
}

fn dump_string(forest: &Vec<TreeNode<NodeInfo<'static>>>) -> String {
    let flat = tree(forest);
    assert_eq!(flat.items.len(), flat.levels.len());
    render_dump(&flat).into_iter().collect()
}

#[test]
fn dump_marks_the_default_scene() {
    let forest = vec![scene_named(Some("Scene"), true, vec![])];
    assert_eq!(dump_string(&forest), "Scene [default]\n");
}

#[test]
fn dump_uses_placeholders_for_unnamed_rows() {
    let forest = vec![scene_named(None, false, vec![node(1, None, vec![])])];
    assert_eq!(dump_string(&forest), "<unnamed scene>\n└── <unnamed node>\n");
}

#[test]
fn dump_draws_tees_and_elbows() {
    let forest = vec![scene_named(
        Some("Scene"),
        false,
        vec![
            node(1, Some("alpha"), vec![]),
            node(2, Some("beta"), vec![]),
        ],
    )];
    assert_eq!(dump_string(&forest), "Scene\n├── alpha\n└── beta\n");
}

#[test]
fn dump_draws_continuation_bars_under_open_rows() {
    let forest = vec![scene_named(
        Some("Scene"),
        true,
        vec![
            node(
                1,
                Some("alpha"),
                vec![
                    node(2, Some("beta"), vec![node(3, None, vec![])]),
                    node(4, Some("gamma"), vec![]),
                ],
            ),
            node(5, Some("delta"), vec![]),
        ],
    )];
    let expected = "Scene [default]\n\
                    ├── alpha\n\
                    \u{20}   ├── beta\n\
                    \u{20}   │   └── <unnamed node>\n\
                    \u{20}   └── gamma\n\
                    └── delta\n";
    assert_eq!(dump_string(&forest), expected);
}

#[test]
fn dump_of_two_scenes_lists_both_headers() {
    let forest = vec![
        scene_named(Some("A"), false, vec![node(1, Some("a"), vec![])]),
        scene_named(Some("B"), true, vec![]),
    ];
    assert_eq!(dump_string(&forest), "A\n└── a\nB [default]\n");
}
