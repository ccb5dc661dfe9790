use layers::kind::LayerNodeKind;
use layers::tree::{
    execute_drop, find_parent_group, move_node_down, move_node_up, remove_node, toggle_expanded,
    DropTarget, LayerNode,
};

fn leaf(id: u64, kind: LayerNodeKind) -> LayerNode {
    LayerNode { entity_id: id, kind, expanded: false, children: Vec::new() }
}

fn group(id: u64, expanded: bool, children: Vec<LayerNode>) -> LayerNode {
    LayerNode { entity_id: id, kind: LayerNodeKind::Group, expanded, children }
}

fn root_ids(tree: &[LayerNode]) -> Vec<u64> {
    tree.iter().map(|n| n.entity_id).collect()
}

fn child_ids(node: &LayerNode) -> Vec<u64> {
    node.children.iter().map(|n| n.entity_id).collect()
}

fn sample_tree() -> Vec<LayerNode> {
    vec![
        leaf(1, LayerNodeKind::Waveform),
        group(
            2,
            true,
            vec![leaf(21, LayerNodeKind::Waveform), leaf(22, LayerNodeKind::MidiClip), leaf(23, LayerNodeKind::PluginBlock)],
        ),
        leaf(3, LayerNodeKind::TextNote),
    ]
}

#[test]
fn tags_read_back_as_their_kind() {
    let kinds = [
        LayerNodeKind::Instrument,
        LayerNodeKind::MidiClip,
        LayerNodeKind::Waveform,
        LayerNodeKind::PluginBlock,
        LayerNodeKind::TextNote,
        LayerNodeKind::Group,
    ];
    for k in kinds {
        assert_eq!(LayerNodeKind::from_tag(k.tag()), Some(k));
    }
    assert_eq!(LayerNodeKind::Instrument.tag(), "instrument");
    assert_eq!(LayerNodeKind::MidiClip.tag(), "midi_clip");
    assert_eq!(LayerNodeKind::Waveform.tag(), "waveform");
    assert_eq!(LayerNodeKind::PluginBlock.tag(), "plugin_block");
    assert_eq!(LayerNodeKind::TextNote.tag(), "text_note");
    assert_eq!(LayerNodeKind::Group.tag(), "group");
}

#[test]
fn unknown_tags_read_as_nothing() {
    assert_eq!(LayerNodeKind::from_tag(""), None);
    assert_eq!(LayerNodeKind::from_tag("Group"), None);
    assert_eq!(LayerNodeKind::from_tag("effect_region"), None);
    assert_eq!(LayerNodeKind::from_tag("group "), None);
}

#[test]
fn move_root_up_and_down() {
    let mut tree = sample_tree();
    assert!(move_node_up(&mut tree, 3));
    assert_eq!(root_ids(&tree), vec![1, 3, 2]);
    assert!(move_node_down(&mut tree, 3));
    assert_eq!(root_ids(&tree), vec![1, 2, 3]);
    // The first root cannot move up, the last cannot move down.
    assert!(!move_node_up(&mut tree, 1));
    assert!(!move_node_down(&mut tree, 3));
    assert_eq!(root_ids(&tree), vec![1, 2, 3]);
}

#[test]
fn move_child_up_and_down() {
    let mut tree = sample_tree();
    assert!(move_node_up(&mut tree, 23));
    assert_eq!(child_ids(&tree[1]), vec![21, 23, 22]);
    assert!(move_node_down(&mut tree, 21));
    assert_eq!(child_ids(&tree[1]), vec![23, 21, 22]);
    assert!(!move_node_up(&mut tree, 23));
    assert!(!move_node_down(&mut tree, 22));
    assert_eq!(child_ids(&tree[1]), vec![23, 21, 22]);
}

#[test]
fn move_unknown_node_changes_nothing() {
    let mut tree = sample_tree();
    assert!(!move_node_up(&mut tree, 99));
    assert!(!move_node_down(&mut tree, 99));
    assert_eq!(root_ids(&tree), vec![1, 2, 3]);
    assert_eq!(child_ids(&tree[1]), vec![21, 22, 23]);
}

#[test]
fn move_up_skips_a_child_already_on_top() {
    // Node 5 is the first child of the first group and the second child of
    // the second: the move happens in the second group.
    let mut tree = vec![
        group(1, true, vec![leaf(5, LayerNodeKind::Waveform), leaf(6, LayerNodeKind::Waveform)]),
        group(2, true, vec![leaf(7, LayerNodeKind::Waveform), leaf(5, LayerNodeKind::Waveform)]),
    ];
    assert!(move_node_up(&mut tree, 5));
    assert_eq!(child_ids(&tree[0]), vec![5, 6]);
    assert_eq!(child_ids(&tree[1]), vec![5, 7]);
}

#[test]
fn move_up_then_down_restores_the_tree() {
    let mut tree = sample_tree();
    assert!(move_node_up(&mut tree, 22));
    assert!(move_node_down(&mut tree, 22));
    assert_eq!(root_ids(&tree), vec![1, 2, 3]);
    assert_eq!(child_ids(&tree[1]), vec![21, 22, 23]);
}

#[test]
fn toggle_root_and_child() {
    let mut tree = sample_tree();
    toggle_expanded(&mut tree, 2);
    assert!(!tree[1].expanded);
    toggle_expanded(&mut tree, 22);
    assert!(tree[1].children[1].expanded);
    assert!(!tree[1].children[0].expanded);
    toggle_expanded(&mut tree, 22);
    toggle_expanded(&mut tree, 2);
    assert!(tree[1].expanded);
    assert!(!tree[1].children[1].expanded);
}

#[test]
fn toggle_unknown_node_changes_nothing() {
    let mut tree = sample_tree();
    toggle_expanded(&mut tree, 77);
    assert!(!tree[0].expanded);
    assert!(tree[1].expanded);
    assert!(tree[1].children.iter().all(|c| !c.expanded));
}

#[test]
fn parent_group_of_children_only() {
    let tree = sample_tree();
    assert_eq!(find_parent_group(&tree, 22), Some(2));
    assert_eq!(find_parent_group(&tree, 2), None);
    assert_eq!(find_parent_group(&tree, 99), None);
}

#[test]
fn remove_root_or_child() {
    let mut tree = sample_tree();
    let n = remove_node(&mut tree, 22).unwrap();
    assert_eq!(n.entity_id, 22);
    assert_eq!(child_ids(&tree[1]), vec![21, 23]);
    let n = remove_node(&mut tree, 1).unwrap();
    assert_eq!(n.entity_id, 1);
    assert_eq!(root_ids(&tree), vec![2, 3]);
    assert!(remove_node(&mut tree, 99).is_none());
    assert_eq!(root_ids(&tree), vec![2, 3]);
}

#[test]
fn drop_before_a_root() {
    let mut tree = sample_tree();
    assert!(execute_drop(&mut tree, &DropTarget::BeforeRoot(0), 3));
    assert_eq!(root_ids(&tree), vec![3, 1, 2]);
    // An index past the end puts the node last.
    assert!(execute_drop(&mut tree, &DropTarget::BeforeRoot(10), 3));
    assert_eq!(root_ids(&tree), vec![1, 2, 3]);
}

#[test]
fn drop_before_a_later_root_lands_right_before_it() {
    let mut tree = sample_tree();
    // Root 1 goes before the root that stood at index 2 (root 3).
    assert!(execute_drop(&mut tree, &DropTarget::BeforeRoot(2), 1));
    assert_eq!(root_ids(&tree), vec![2, 1, 3]);
    // Before the root right behind it: it stays where it is.
    assert!(execute_drop(&mut tree, &DropTarget::BeforeRoot(2), 1));
    assert_eq!(root_ids(&tree), vec![2, 1, 3]);
    // Before the root at the end index: last.
    assert!(execute_drop(&mut tree, &DropTarget::BeforeRoot(3), 2));
    assert_eq!(root_ids(&tree), vec![1, 3, 2]);
    // A child taken out of its group shifts no root.
    let mut tree = sample_tree();
    assert!(execute_drop(&mut tree, &DropTarget::BeforeRoot(2), 21));
    assert_eq!(root_ids(&tree), vec![1, 2, 21, 3]);
    assert_eq!(child_ids(&tree[1]), vec![22, 23]);
}

#[test]
fn a_drop_keeps_every_node_and_the_dragged_subtree() {
    let mut tree = sample_tree();
    assert!(execute_drop(&mut tree, &DropTarget::BeforeRoot(0), 2));
    assert_eq!(root_ids(&tree), vec![2, 1, 3]);
    assert_eq!(child_ids(&tree[0]), vec![21, 22, 23]);
    let mut all: Vec<u64> = Vec::new();
    for n in tree.iter() {
        all.push(n.entity_id);
        all.extend(child_ids(n));
    }
    all.sort();
    assert_eq!(all, vec![1, 2, 3, 21, 22, 23]);
}

#[test]
fn drop_after_last_root_takes_a_child_out() {
    let mut tree = sample_tree();
    assert!(execute_drop(&mut tree, &DropTarget::AfterLastRoot, 21));
    assert_eq!(root_ids(&tree), vec![1, 2, 3, 21]);
    assert_eq!(child_ids(&tree[1]), vec![22, 23]);
}

#[test]
fn drop_inside_a_group() {
    let mut tree = sample_tree();
    let target = DropTarget::InsideGroup { group_id: 2, child_index: 1 };
    assert!(execute_drop(&mut tree, &target, 1));
    assert_eq!(root_ids(&tree), vec![2, 3]);
    assert_eq!(child_ids(&tree[0]), vec![21, 1, 22, 23]);
    let target = DropTarget::InsideGroup { group_id: 2, child_index: 50 };
    assert!(execute_drop(&mut tree, &target, 3));
    assert_eq!(root_ids(&tree), vec![2]);
    assert_eq!(child_ids(&tree[0]), vec![21, 1, 22, 23, 3]);
}

#[test]
fn drop_into_missing_group_changes_nothing() {
    let mut tree = sample_tree();
    let target = DropTarget::InsideGroup { group_id: 40, child_index: 0 };
    assert!(!execute_drop(&mut tree, &target, 1));
    assert_eq!(root_ids(&tree), vec![1, 2, 3]);
    // A child goes back to its place in its group.
    assert!(!execute_drop(&mut tree, &target, 22));
    assert_eq!(root_ids(&tree), vec![1, 2, 3]);
    assert_eq!(child_ids(&tree[1]), vec![21, 22, 23]);
    // A group cannot be dropped into itself.
    let into_itself = DropTarget::InsideGroup { group_id: 2, child_index: 0 };
    assert!(!execute_drop(&mut tree, &into_itself, 2));
    assert_eq!(root_ids(&tree), vec![1, 2, 3]);
    assert_eq!(child_ids(&tree[1]), vec![21, 22, 23]);
}

#[test]
fn drop_inside_a_root_of_another_kind_goes_among_its_children() {
    let mut tree = sample_tree();
    let target = DropTarget::InsideGroup { group_id: 1, child_index: 0 };
    assert!(execute_drop(&mut tree, &target, 3));
    assert_eq!(root_ids(&tree), vec![1, 2]);
    assert_eq!(child_ids(&tree[0]), vec![3]);
}

#[test]
fn drop_of_missing_node_changes_nothing() {
    let mut tree = sample_tree();
    assert!(!execute_drop(&mut tree, &DropTarget::AfterLastRoot, 99));
    assert_eq!(root_ids(&tree), vec![1, 2, 3]);
}

#[test]
fn dropped_inside_group_is_found_there() {
    let mut tree = sample_tree();
    let target = DropTarget::InsideGroup { group_id: 2, child_index: 0 };
    assert!(execute_drop(&mut tree, &target, 3));
    assert_eq!(find_parent_group(&tree, 3), Some(2));
    assert_eq!(root_ids(&tree), vec![1, 2]);
}

#[test]
fn a_cloned_tree_is_the_same_tree() {
    let tree = sample_tree();
    let copy = tree.clone();
    assert_eq!(root_ids(&copy), root_ids(&tree));
    assert_eq!(child_ids(&copy[1]), child_ids(&tree[1]));
    assert_eq!(copy[1].expanded, tree[1].expanded);
    assert_eq!(copy[1].children[1].kind, LayerNodeKind::MidiClip);
}
