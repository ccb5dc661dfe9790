use layers::kind::LayerNodeKind::{Group, Instrument, MidiClip, PluginBlock, TextNote, Waveform};
use layers::browser::DropZone::{BottomEdge, LowerMiddle, TopEdge, UpperMiddle};
use indexmap::IndexMap;
use layers::browser::{compute_drop_target, drop_target_indicator, flatten_tree, layer_label, DropZone, FlatLayerRow};
use layers::catalog::{
    GroupEntry, Groups, InstrumentEntry, Instruments, MidiClipEntry, MidiClips, PluginBlockEntry,
    PluginBlocks, WaveformEntry, Waveforms,
};
use layers::kind::LayerNodeKind;
use layers::tree::{DropTarget, LayerNode};

struct Maps {
    instruments: Instruments,
    midi_clips: MidiClips,
    waveforms: Waveforms,
    plugin_blocks: PluginBlocks,
    groups: Groups,
}

fn maps() -> Maps {
    let mut instruments = IndexMap::new();
    instruments.insert(1, InstrumentEntry { name: "Piano".to_string(), plugin_name: "Dexed".to_string() });
    instruments.insert(2, InstrumentEntry { name: "instrument".to_string(), plugin_name: "Vital".to_string() });
    instruments.insert(3, InstrumentEntry { name: String::new(), plugin_name: String::new() });
    let mut midi_clips = IndexMap::new();
    midi_clips.insert(10, MidiClipEntry { instrument_id: Some(1), note_count: 1 });
    midi_clips.insert(11, MidiClipEntry { instrument_id: Some(1), note_count: 12 });
    midi_clips.insert(12, MidiClipEntry { instrument_id: None, note_count: 0 });
    let mut waveforms = IndexMap::new();
    waveforms.insert(20, WaveformEntry { y_order: 0, audio_filename: "kick.wav".to_string(), filename: "drums".to_string() });
    waveforms.insert(21, WaveformEntry { y_order: 0, audio_filename: String::new(), filename: "pad.wav".to_string() });
    let mut plugin_blocks = IndexMap::new();
    plugin_blocks.insert(30, PluginBlockEntry { plugin_name: "Reverb".to_string() });
    let mut groups = IndexMap::new();
    groups.insert(40, GroupEntry { name: "Drums".to_string(), member_ids: vec![20], effect_chain_id: None });
    Maps { instruments, midi_clips, waveforms, plugin_blocks, groups }
}

fn label(m: &Maps, kind: LayerNodeKind, id: u64) -> String {
    layer_label(kind, id, &m.instruments, &m.midi_clips, &m.waveforms, &m.plugin_blocks, &m.groups)
}

fn node(id: u64, kind: LayerNodeKind, expanded: bool, children: Vec<LayerNode>) -> LayerNode {
    LayerNode { entity_id: id, kind, expanded, children }
}

fn flat(m: &Maps, tree: &[LayerNode]) -> Vec<FlatLayerRow> {
    flatten_tree(tree, &m.instruments, &m.midi_clips, &m.waveforms, &m.plugin_blocks, &m.groups)
}

fn sample_tree() -> Vec<LayerNode> {
    vec![
        node(1, Instrument, true, vec![node(10, MidiClip, false, vec![]), node(11, MidiClip, false, vec![])]),
        node(40, Group, true, vec![node(20, Waveform, false, vec![]), node(30, PluginBlock, false, vec![])]),
        node(41, Group, false, vec![node(21, Waveform, false, vec![])]),
        node(50, TextNote, false, vec![]),
    ]
}

#[test]
fn labels_by_kind() {
    let m = maps();
    assert_eq!(label(&m, Instrument, 1), "Piano");
    assert_eq!(label(&m, Instrument, 2), "Vital");
    assert_eq!(label(&m, Instrument, 3), "Instrument 3");
    assert_eq!(label(&m, Instrument, 99), "Instrument 99");
    assert_eq!(label(&m, MidiClip, 10), "MIDI (1 note)");
    assert_eq!(label(&m, MidiClip, 11), "MIDI (12 notes)");
    assert_eq!(label(&m, MidiClip, 12), "MIDI (0 notes)");
    assert_eq!(label(&m, MidiClip, 99), "MIDI");
    assert_eq!(label(&m, Waveform, 20), "kick.wav");
    assert_eq!(label(&m, Waveform, 21), "pad.wav");
    assert_eq!(label(&m, Waveform, 99), "Audio");
    assert_eq!(label(&m, PluginBlock, 30), "Reverb");
    assert_eq!(label(&m, PluginBlock, 99), "Plugin");
    assert_eq!(label(&m, TextNote, 50), "Text Note");
    assert_eq!(label(&m, Group, 40), "Drums");
    assert_eq!(label(&m, Group, 99), "Group");
}

#[test]
fn flat_rows_follow_expanded_state() {
    let m = maps();
    let rows = flat(&m, &sample_tree());
    let got: Vec<(u64, usize, bool, bool, String)> =
        rows.iter().map(|r| (r.entity_id, r.depth, r.has_children, r.expanded, r.label.clone())).collect();
    assert_eq!(
        got,
        vec![
            (1, 0, true, true, "Piano".to_string()),
            (10, 1, false, false, "MIDI (1 note)".to_string()),
            (11, 1, false, false, "MIDI (12 notes)".to_string()),
            (40, 0, true, true, "Drums".to_string()),
            (20, 1, false, false, "kick.wav".to_string()),
            (30, 1, false, false, "Reverb".to_string()),
            (41, 0, true, false, "Group".to_string()),
            (50, 0, false, false, "Text Note".to_string()),
        ]
    );
}

#[test]
fn drop_targets_on_rows() {
    let m = maps();
    let tree = sample_tree();
    let rows = flat(&m, &tree);
    // Past the last row.
    assert_eq!(compute_drop_target(&rows, &tree, 8, TopEdge, 50), Some(DropTarget::AfterLastRoot));
    // Onto itself.
    assert_eq!(compute_drop_target(&rows, &tree, 0, TopEdge, 1), None);
    // Middle of a group row: at the end of the group.
    assert_eq!(
        compute_drop_target(&rows, &tree, 3, UpperMiddle, 50),
        Some(DropTarget::InsideGroup { group_id: 40, child_index: 2 })
    );
    assert_eq!(
        compute_drop_target(&rows, &tree, 6, LowerMiddle, 50),
        Some(DropTarget::InsideGroup { group_id: 41, child_index: 1 })
    );
    // Edges of a group row: before or after that root.
    assert_eq!(compute_drop_target(&rows, &tree, 3, TopEdge, 50), Some(DropTarget::BeforeRoot(1)));
    assert_eq!(compute_drop_target(&rows, &tree, 3, BottomEdge, 50), Some(DropTarget::BeforeRoot(2)));
    // A child row: before or after the child within its parent.
    assert_eq!(
        compute_drop_target(&rows, &tree, 5, UpperMiddle, 50),
        Some(DropTarget::InsideGroup { group_id: 40, child_index: 1 })
    );
    assert_eq!(
        compute_drop_target(&rows, &tree, 5, BottomEdge, 50),
        Some(DropTarget::InsideGroup { group_id: 40, child_index: 2 })
    );
    // A child row of an instrument, which is no group: nowhere.
    assert_eq!(compute_drop_target(&rows, &tree, 1, TopEdge, 50), None);
    // The last root: after it means after all roots.
    assert_eq!(compute_drop_target(&rows, &tree, 7, LowerMiddle, 1), Some(DropTarget::AfterLastRoot));
    assert_eq!(compute_drop_target(&rows, &tree, 7, UpperMiddle, 1), Some(DropTarget::BeforeRoot(3)));
}

#[test]
fn drop_target_on_row_missing_from_tree() {
    let m = maps();
    let tree = sample_tree();
    let mut rows = flat(&m, &tree);
    rows.push(FlatLayerRow {
        entity_id: 77,
        kind: LayerNodeKind::Waveform,
        depth: 1,
        has_children: false,
        expanded: false,
        label: "stray".to_string(),
    });
    assert_eq!(compute_drop_target(&rows, &tree, 8, TopEdge, 50), None);
}

#[test]
fn drop_markers() {
    let m = maps();
    let tree = sample_tree();
    let rows = flat(&m, &tree);
    assert_eq!(
        drop_target_indicator(&DropTarget::InsideGroup { group_id: 40, child_index: 0 }, &tree, &rows),
        Some((3, 0, true))
    );
    assert_eq!(
        drop_target_indicator(&DropTarget::InsideGroup { group_id: 99, child_index: 0 }, &tree, &rows),
        None
    );
    assert_eq!(drop_target_indicator(&DropTarget::BeforeRoot(2), &tree, &rows), Some((6, 0, false)));
    assert_eq!(drop_target_indicator(&DropTarget::BeforeRoot(9), &tree, &rows), Some((8, 0, false)));
    assert_eq!(drop_target_indicator(&DropTarget::AfterLastRoot, &tree, &rows), Some((8, 0, false)));
}
