use gltf_explorer::scene_tree::{NodeInfo, SceneTraverser, TreeNode};
use gltf_explorer::tree::TreeTraverser;

fn leaf(index: usize, name: &'static str) -> TreeNode<NodeInfo<'static>> {
    TreeNode {
        item: NodeInfo::from_node(index, Some(name)),
        children: vec![],
    }
}

fn branch(
    index: usize,
    name: &'static str,
    children: Vec<TreeNode<NodeInfo<'static>>>,
) -> TreeNode<NodeInfo<'static>> {
    TreeNode {
        item: NodeInfo::from_node(index, Some(name)),
        children,
    }
}

fn name(r: Option<NodeInfo<'static>>) -> &'static str {
    r.unwrap().name.unwrap()
}

#[test]
fn operations_fire_in_protocol_order() {
    // root -> {A -> {A1}, B}
    let forest = vec![branch(
        0,
        "root",
        vec![branch(1, "A", vec![leaf(2, "A1")]), leaf(3, "B")],
    )];
    let mut t = SceneTraverser::new(&forest);
    assert_eq!(name(t.first_child()), "root");
    assert_eq!(name(t.first_child()), "A");
    assert_eq!(name(t.first_child()), "A1");
    assert!(t.first_child().is_none());
    assert!(t.next_sibling().is_none());
    let (uncle, levels_up) = t.next_uncle().unwrap();
    assert_eq!(uncle.name.unwrap(), "B");
    assert_eq!(levels_up, 1);
    assert!(t.first_child().is_none());
    assert!(t.next_sibling().is_none());
    assert!(t.next_uncle().is_none());
}

#[test]
fn uncle_ascent_can_span_the_whole_stack() {
    // root1 -> a -> b, root2: from b the nearest uncle is root2, two
    // levels up.
    let forest = vec![
        branch(0, "root1", vec![branch(1, "a", vec![leaf(2, "b")])]),
        leaf(3, "root2"),
    ];
    let mut t = SceneTraverser::new(&forest);
    assert_eq!(name(t.first_child()), "root1");
    assert_eq!(name(t.first_child()), "a");
    assert_eq!(name(t.first_child()), "b");
    assert!(t.first_child().is_none());
    assert!(t.next_sibling().is_none());
    let (uncle, levels_up) = t.next_uncle().unwrap();
    assert_eq!(uncle.name.unwrap(), "root2");
    assert_eq!(levels_up, 2);
}

#[test]
fn next_sibling_walks_one_row() {
    let forest = vec![leaf(0, "r1"), leaf(1, "r2"), leaf(2, "r3")];
    let mut t = SceneTraverser::new(&forest);
    assert_eq!(name(t.first_child()), "r1");
    assert_eq!(name(t.next_sibling()), "r2");
    assert_eq!(name(t.next_sibling()), "r3");
    assert!(t.next_sibling().is_none());
    assert!(t.next_uncle().is_none());
}

#[test]
fn exhausted_traverser_stays_exhausted() {
    let forest = vec![leaf(0, "only")];
    let mut t = SceneTraverser::new(&forest);
    assert_eq!(name(t.first_child()), "only");
    for _ in 0..3 {
        assert!(t.first_child().is_none());
        assert!(t.next_sibling().is_none());
        assert!(t.next_uncle().is_none());
    }
}

#[test]
fn empty_forest_yields_nothing() {
    let forest: Vec<TreeNode<NodeInfo<'static>>> = vec![];
    let mut t = SceneTraverser::new(&forest);
    assert!(t.first_child().is_none());
    assert!(t.next_sibling().is_none());
    assert!(t.next_uncle().is_none());
}
