use accesskit_stream::node::{
    NodeData, NodeId, NodeState, ParentAndIndex, Role, TreeReader,
};

fn node(id: u64, role: Role, parent: Option<(u64, usize)>, children: Vec<u64>) -> NodeState {
    NodeState {
        parent_and_index: parent.map(|(p, i)| ParentAndIndex(NodeId(p), i)),
        data: NodeData {
            id: NodeId(id),
            role,
            ignored: false,
            invisible: false,
            children: children.into_iter().map(NodeId).collect(),
        },
    }
}

// 1 (window) -> 2 (presentation) -> 3 (generic, ignored) -> 4 (button)
//            -> 5 (label, invisible)
fn sample() -> TreeReader {
    let mut nodes = vec![
        node(1, Role::Window, None, vec![2, 5]),
        node(2, Role::Presentation, Some((1, 0)), vec![3]),
        node(3, Role::GenericContainer, Some((2, 0)), vec![4]),
        node(4, Role::Button, Some((3, 0)), vec![]),
        node(5, Role::Label, Some((1, 1)), vec![]),
    ];
    nodes[2].data.ignored = true;
    nodes[4].data.invisible = true;
    TreeReader { id: String::from("main"), focus: Some(NodeId(4)), nodes }
}

#[test]
fn lookup_finds_present_nodes_only() {
    let tree = sample();
    assert_eq!(tree.node_by_id(NodeId(3)).unwrap().id(), NodeId(3));
    assert!(tree.node_by_id(NodeId(9)).is_none());
}

#[test]
fn parent_of_root_is_none() {
    let tree = sample();
    let root = tree.node_by_id(NodeId(1)).unwrap();
    assert!(root.parent().is_none());
    let label = tree.node_by_id(NodeId(5)).unwrap();
    assert_eq!(label.parent().unwrap().id(), NodeId(1));
}

#[test]
fn unignored_parent_skips_ignored_and_presentation_nodes() {
    let tree = sample();
    let button = tree.node_by_id(NodeId(4)).unwrap();
    assert_eq!(button.parent().unwrap().id(), NodeId(3));
    assert_eq!(button.unignored_parent().unwrap().id(), NodeId(1));
    let root = tree.node_by_id(NodeId(1)).unwrap();
    assert!(root.unignored_parent().is_none());
}

#[test]
fn children_come_in_order() {
    let tree = sample();
    let root = tree.node_by_id(NodeId(1)).unwrap();
    let ids: Vec<NodeId> = root.children().iter().map(|n| n.id()).collect();
    assert_eq!(ids, vec![NodeId(2), NodeId(5)]);
    let button = tree.node_by_id(NodeId(4)).unwrap();
    assert!(button.children().is_empty());
}

#[test]
fn global_id_joins_tree_and_node_ids() {
    let tree = sample();
    assert_eq!(tree.node_by_id(NodeId(4)).unwrap().global_id(), "main:4");
    let mut big = sample();
    big.nodes[0].data.id = NodeId(18446744073709551615);
    big.nodes[1].parent_and_index = Some(ParentAndIndex(NodeId(18446744073709551615), 0));
    big.nodes[4].parent_and_index = Some(ParentAndIndex(NodeId(18446744073709551615), 1));
    let root = big.node_by_id(NodeId(18446744073709551615)).unwrap();
    assert_eq!(root.global_id(), "main:18446744073709551615");
}

#[test]
fn focus_and_visibility_flags() {
    let tree = sample();
    let button = tree.node_by_id(NodeId(4)).unwrap();
    assert!(button.is_focused());
    assert!(!button.is_ignored());
    assert!(!button.is_invisible_or_ignored());
    let presentation = tree.node_by_id(NodeId(2)).unwrap();
    assert!(presentation.is_ignored());
    assert!(presentation.is_invisible_or_ignored());
    let label = tree.node_by_id(NodeId(5)).unwrap();
    assert!(label.is_invisible());
    assert!(label.is_invisible_or_ignored());
    assert_eq!(label.data().role, Role::Label);
    assert_eq!(label.role(), Role::Label);
}

#[test]
fn focused_node_is_not_hidden_even_when_invisible() {
    let mut tree = sample();
    tree.focus = Some(NodeId(5));
    let label = tree.node_by_id(NodeId(5)).unwrap();
    assert!(label.is_invisible());
    assert!(!label.is_invisible_or_ignored());
}

#[test]
fn sample_state_is_valid() {
    assert!(sample().is_valid());
    let empty = TreeReader { id: String::from("e"), focus: None, nodes: vec![] };
    assert!(empty.is_valid());
}

#[test]
fn duplicate_identifiers_are_invalid() {
    let mut tree = sample();
    tree.nodes[4].data.id = NodeId(3);
    assert!(!tree.is_valid());
}

#[test]
fn missing_parent_or_child_is_invalid() {
    let mut tree = sample();
    tree.nodes[3].parent_and_index = Some(ParentAndIndex(NodeId(42), 0));
    assert!(!tree.is_valid());
    let mut tree = sample();
    tree.nodes[3].data.children.push(NodeId(42));
    assert!(!tree.is_valid());
}

#[test]
fn parent_cycle_is_invalid() {
    let mut tree = sample();
    tree.nodes[0].parent_and_index = Some(ParentAndIndex(NodeId(4), 0));
    assert!(!tree.is_valid());
    let mut tree = sample();
    tree.nodes[3].parent_and_index = Some(ParentAndIndex(NodeId(4), 0));
    assert!(!tree.is_valid());
}
