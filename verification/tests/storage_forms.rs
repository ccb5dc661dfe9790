use layers::kind::LayerNodeKind;
use layers::storage::{tree_from_stored, tree_to_stored, StoredLayerNode};
use layers::text::{id_text, parse_id};
use layers::tree::LayerNode;

fn node(id: u64, kind: LayerNodeKind, expanded: bool, children: Vec<LayerNode>) -> LayerNode {
    LayerNode { entity_id: id, kind, expanded, children }
}

fn record(id: &str, tag: &str, parent: &str, expanded: bool) -> StoredLayerNode {
    StoredLayerNode {
        entity_id: id.to_string(),
        kind_tag: tag.to_string(),
        parent_entity_id: parent.to_string(),
        expanded,
    }
}

fn shape(tree: &[LayerNode]) -> Vec<(u64, LayerNodeKind, bool, Vec<(u64, LayerNodeKind, bool, usize)>)> {
    tree.iter()
        .map(|n| {
            (
                n.entity_id,
                n.kind,
                n.expanded,
                n.children.iter().map(|c| (c.entity_id, c.kind, c.expanded, c.children.len())).collect(),
            )
        })
        .collect()
}

fn sample_tree() -> Vec<LayerNode> {
    vec![
        node(
            7,
            LayerNodeKind::Instrument,
            true,
            vec![node(70, LayerNodeKind::MidiClip, false, vec![]), node(71, LayerNodeKind::MidiClip, true, vec![])],
        ),
        node(8, LayerNodeKind::Waveform, false, vec![]),
        node(9, LayerNodeKind::Group, false, vec![node(90, LayerNodeKind::PluginBlock, false, vec![])]),
    ]
}

#[test]
fn identifiers_in_decimal() {
    assert_eq!(id_text(0), "0");
    assert_eq!(id_text(42), "42");
    assert_eq!(id_text(u64::MAX), "18446744073709551615");
}

#[test]
fn identifiers_read_like_u64() {
    assert_eq!(parse_id("0"), Some(0));
    assert_eq!(parse_id("00042"), Some(42));
    assert_eq!(parse_id("+7"), Some(7));
    assert_eq!(parse_id("18446744073709551615"), Some(u64::MAX));
    assert_eq!(parse_id("18446744073709551616"), None);
    assert_eq!(parse_id("99999999999999999999999"), None);
    assert_eq!(parse_id(""), None);
    assert_eq!(parse_id("+"), None);
    assert_eq!(parse_id("-1"), None);
    assert_eq!(parse_id("12a"), None);
    assert_eq!(parse_id(" 12"), None);
    for s in ["0", "00042", "+7", "18446744073709551615", "", "+", "-1", "12a", "1+2"] {
        assert_eq!(parse_id(s), s.parse::<u64>().ok());
    }
}

#[test]
fn identifier_text_reads_back() {
    for id in [0u64, 1, 9, 10, 12345, u64::MAX - 1, u64::MAX] {
        assert_eq!(parse_id(&id_text(id)), Some(id));
    }
}

#[test]
fn stored_records_of_a_tree() {
    let stored = tree_to_stored(&sample_tree());
    let rows: Vec<(String, String, String, bool)> = stored
        .iter()
        .map(|r| (r.entity_id.clone(), r.kind_tag.clone(), r.parent_entity_id.clone(), r.expanded))
        .collect();
    assert_eq!(
        rows,
        vec![
            ("7".to_string(), "instrument".to_string(), "".to_string(), true),
            ("70".to_string(), "midi_clip".to_string(), "7".to_string(), false),
            ("71".to_string(), "midi_clip".to_string(), "7".to_string(), true),
            ("8".to_string(), "waveform".to_string(), "".to_string(), false),
            ("9".to_string(), "group".to_string(), "".to_string(), false),
            ("90".to_string(), "plugin_block".to_string(), "9".to_string(), false),
        ]
    );
}

#[test]
fn stored_tree_reads_back() {
    let tree = sample_tree();
    let back = tree_from_stored(&tree_to_stored(&tree));
    assert_eq!(shape(&back), shape(&tree));
}

#[test]
fn empty_tree_round_trip() {
    assert!(tree_to_stored(&[]).is_empty());
    assert!(tree_from_stored(&[]).is_empty());
}

#[test]
fn unreadable_records_are_skipped() {
    let stored = vec![
        record("1", "waveform", "", false),
        record("x", "waveform", "", false),
        record("2", "effect_region", "", false),
        record("3", "group", "", true),
        record("31", "waveform", "3", false),
        record("32", "waveform", "nope", false),
        record("33", "waveform", "4", false),
    ];
    let tree = tree_from_stored(&stored);
    assert_eq!(
        shape(&tree),
        vec![
            (1, LayerNodeKind::Waveform, false, vec![]),
            (3, LayerNodeKind::Group, true, vec![(31, LayerNodeKind::Waveform, false, 0)]),
        ]
    );
}

#[test]
fn children_follow_their_parent_in_order() {
    // Children may come before their parent and interleave with others.
    let stored = vec![
        record("11", "midi_clip", "1", false),
        record("21", "plugin_block", "2", false),
        record("1", "instrument", "", true),
        record("12", "midi_clip", "+1", true),
        record("2", "group", "", false),
    ];
    let tree = tree_from_stored(&stored);
    assert_eq!(
        shape(&tree),
        vec![
            (
                1,
                LayerNodeKind::Instrument,
                true,
                vec![(11, LayerNodeKind::MidiClip, false, 0), (12, LayerNodeKind::MidiClip, true, 0)],
            ),
            (2, LayerNodeKind::Group, false, vec![(21, LayerNodeKind::PluginBlock, false, 0)]),
        ]
    );
}

#[test]
fn repeated_root_gets_no_children() {
    let stored = vec![
        record("5", "group", "", true),
        record("5", "group", "", false),
        record("51", "waveform", "5", false),
    ];
    let tree = tree_from_stored(&stored);
    assert_eq!(
        shape(&tree),
        vec![
            (5, LayerNodeKind::Group, true, vec![(51, LayerNodeKind::Waveform, false, 0)]),
            (5, LayerNodeKind::Group, false, vec![]),
        ]
    );
}

#[test]
fn grandchildren_are_not_stored() {
    let tree = vec![node(
        1,
        LayerNodeKind::Group,
        true,
        vec![node(2, LayerNodeKind::Group, true, vec![node(3, LayerNodeKind::Waveform, false, vec![])])],
    )];
    let stored = tree_to_stored(&tree);
    assert_eq!(stored.len(), 2);
    let back = tree_from_stored(&stored);
    assert_eq!(shape(&back), vec![(1, LayerNodeKind::Group, true, vec![(2, LayerNodeKind::Group, true, 0)])]);
}

#[test]
fn records_read_back_alike_in_any_order_within_each_line() {
    let ordered = vec![
        record("1", "instrument", "", true),
        record("2", "group", "", false),
        record("10", "midi_clip", "1", false),
        record("20", "waveform", "2", true),
        record("11", "midi_clip", "1", true),
    ];
    // Children before their parents, lines interleaved, each line in order.
    let mixed = vec![
        record("20", "waveform", "2", true),
        record("10", "midi_clip", "1", false),
        record("1", "instrument", "", true),
        record("11", "midi_clip", "1", true),
        record("2", "group", "", false),
    ];
    let a = tree_from_stored(&ordered);
    let b = tree_from_stored(&mixed);
    assert_eq!(shape(&a), shape(&b));
    assert_eq!(
        shape(&a),
        vec![
            (
                1,
                LayerNodeKind::Instrument,
                true,
                vec![(10, LayerNodeKind::MidiClip, false, 0), (11, LayerNodeKind::MidiClip, true, 0)]
            ),
            (2, LayerNodeKind::Group, false, vec![(20, LayerNodeKind::Waveform, true, 0)]),
        ]
    );
}
