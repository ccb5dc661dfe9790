use layers::kind::LayerNodeKind::{Group, Instrument, MidiClip, PluginBlock, TextNote, Waveform};
use indexmap::IndexMap;
use layers::catalog::{
    GroupEntry, Groups, InstrumentEntry, Instruments, MidiClipEntry, MidiClips, PluginBlockEntry,
    PluginBlocks, WaveformEntry, Waveforms,
};
use layers::kind::LayerNodeKind;
use layers::sync::{build_default_tree, member_kind, sync_tree};
use layers::tree::LayerNode;

struct Maps {
    instruments: Instruments,
    midi_clips: MidiClips,
    waveforms: Waveforms,
    plugin_blocks: PluginBlocks,
    groups: Groups,
}

fn instrument(name: &str) -> InstrumentEntry {
    InstrumentEntry { name: name.to_string(), plugin_name: String::new() }
}

fn clip(inst: Option<u64>) -> MidiClipEntry {
    MidiClipEntry { instrument_id: inst, note_count: 0 }
}

fn wave(y: u32) -> WaveformEntry {
    WaveformEntry { y_order: y, audio_filename: String::new(), filename: String::new() }
}

fn grp(members: Vec<u64>) -> GroupEntry {
    GroupEntry { name: "G".to_string(), member_ids: members, effect_chain_id: None }
}

fn sample_maps() -> Maps {
    let mut instruments = IndexMap::new();
    instruments.insert(1, instrument("Piano"));
    instruments.insert(2, instrument("Bass"));
    let mut midi_clips = IndexMap::new();
    midi_clips.insert(10, clip(Some(2)));
    midi_clips.insert(11, clip(Some(1)));
    midi_clips.insert(12, clip(Some(2)));
    midi_clips.insert(13, clip(None));
    let mut waveforms = IndexMap::new();
    waveforms.insert(20, wave(300));
    waveforms.insert(21, wave(100));
    waveforms.insert(22, wave(300));
    waveforms.insert(23, wave(200));
    let mut plugin_blocks = IndexMap::new();
    plugin_blocks.insert(30, PluginBlockEntry { plugin_name: "Reverb".to_string() });
    let mut groups = IndexMap::new();
    groups.insert(40, grp(vec![22, 30, 99, 11]));
    Maps { instruments, midi_clips, waveforms, plugin_blocks, groups }
}

type Shape = Vec<(u64, LayerNodeKind, bool, Vec<(u64, LayerNodeKind, bool)>)>;

fn shape(tree: &[LayerNode]) -> Shape {
    tree.iter()
        .map(|n| (n.entity_id, n.kind, n.expanded, n.children.iter().map(|c| (c.entity_id, c.kind, c.expanded)).collect()))
        .collect()
}

fn leaf(id: u64, kind: LayerNodeKind, expanded: bool) -> LayerNode {
    LayerNode { entity_id: id, kind, expanded, children: Vec::new() }
}

#[test]
fn member_kind_by_first_map() {
    let m = sample_maps();
    let kind = |id| member_kind(id, &m.instruments, &m.midi_clips, &m.waveforms, &m.plugin_blocks);
    assert_eq!(kind(1), Some(LayerNodeKind::Instrument));
    assert_eq!(kind(12), Some(LayerNodeKind::MidiClip));
    assert_eq!(kind(23), Some(LayerNodeKind::Waveform));
    assert_eq!(kind(30), Some(LayerNodeKind::PluginBlock));
    assert_eq!(kind(40), None);
    assert_eq!(kind(99), None);
}

#[test]
fn default_tree_of_sample_project() {
    let m = sample_maps();
    let tree = build_default_tree(&m.instruments, &m.midi_clips, &m.waveforms, &m.plugin_blocks, &m.groups);
    assert_eq!(
        shape(&tree),
        vec![
            (1, Instrument, true, vec![(11, MidiClip, false)]),
            (2, Instrument, true, vec![(10, MidiClip, false), (12, MidiClip, false)]),
            (21, Waveform, false, vec![]),
            (23, Waveform, false, vec![]),
            (20, Waveform, false, vec![]),
            (22, Waveform, false, vec![]),
            (40, Group, true, vec![(22, Waveform, false), (30, PluginBlock, false), (11, MidiClip, false)]),
        ]
    );
}

#[test]
fn default_tree_of_empty_project() {
    let m = Maps {
        instruments: IndexMap::new(),
        midi_clips: IndexMap::new(),
        waveforms: IndexMap::new(),
        plugin_blocks: IndexMap::new(),
        groups: IndexMap::new(),
    };
    let tree = build_default_tree(&m.instruments, &m.midi_clips, &m.waveforms, &m.plugin_blocks, &m.groups);
    assert!(tree.is_empty());
}

#[test]
fn sync_of_empty_tree_adds_everything() {
    let m = sample_maps();
    let mut tree = Vec::new();
    sync_tree(&mut tree, &m.instruments, &m.midi_clips, &m.waveforms, &m.plugin_blocks, &m.groups);
    // Waveform 22 is in group 40, so it only shows inside the group; clip 11
    // is already under instrument 1 when the group is added.
    assert_eq!(
        shape(&tree),
        vec![
            (1, Instrument, true, vec![(11, MidiClip, false)]),
            (2, Instrument, true, vec![(10, MidiClip, false), (12, MidiClip, false)]),
            (20, Waveform, false, vec![]),
            (21, Waveform, false, vec![]),
            (23, Waveform, false, vec![]),
            (40, Group, true, vec![(22, Waveform, false), (30, PluginBlock, false)]),
        ]
    );
}

#[test]
fn sync_drops_stale_and_grouped_roots_and_keeps_state() {
    let m = sample_maps();
    let mut tree = vec![
        leaf(23, Waveform, true),
        leaf(5, Waveform, false),
        leaf(22, Waveform, false),
        leaf(60, TextNote, false),
        LayerNode { entity_id: 2, kind: Instrument, expanded: false, children: vec![leaf(12, MidiClip, true), leaf(77, MidiClip, false)] },
        LayerNode { entity_id: 40, kind: Group, expanded: false, children: vec![leaf(30, PluginBlock, true), leaf(98, Waveform, false)] },
        leaf(41, Group, true),
    ];
    sync_tree(&mut tree, &m.instruments, &m.midi_clips, &m.waveforms, &m.plugin_blocks, &m.groups);
    assert_eq!(
        shape(&tree),
        vec![
            (23, Waveform, true, vec![]),
            (60, TextNote, false, vec![]),
            (2, Instrument, false, vec![(12, MidiClip, true), (10, MidiClip, false)]),
            (40, Group, false, vec![(30, PluginBlock, true), (22, Waveform, false), (11, MidiClip, false)]),
            (1, Instrument, true, vec![]),
            (20, Waveform, false, vec![]),
            (21, Waveform, false, vec![]),
        ]
    );
}

#[test]
fn second_sync_adds_group_members_listed_elsewhere() {
    // A group's members are brought in whether or not another node already
    // shows them: clip 11 sits under instrument 1 after the first sync and
    // joins group 40 on the second.
    let m = sample_maps();
    let mut tree = Vec::new();
    sync_tree(&mut tree, &m.instruments, &m.midi_clips, &m.waveforms, &m.plugin_blocks, &m.groups);
    sync_tree(&mut tree, &m.instruments, &m.midi_clips, &m.waveforms, &m.plugin_blocks, &m.groups);
    assert_eq!(
        shape(&tree),
        vec![
            (1, Instrument, true, vec![(11, MidiClip, false)]),
            (2, Instrument, true, vec![(10, MidiClip, false), (12, MidiClip, false)]),
            (20, Waveform, false, vec![]),
            (21, Waveform, false, vec![]),
            (23, Waveform, false, vec![]),
            (40, Group, true, vec![(22, Waveform, false), (30, PluginBlock, false), (11, MidiClip, false)]),
        ]
    );
}

#[test]
fn sync_puts_a_grouped_instrument_only_under_its_group() {
    let mut instruments = IndexMap::new();
    instruments.insert(1, instrument("Piano"));
    let mut midi_clips = IndexMap::new();
    midi_clips.insert(10, clip(Some(1)));
    let mut groups = IndexMap::new();
    groups.insert(40, grp(vec![1]));
    let waveforms: Waveforms = IndexMap::new();
    let plugin_blocks: PluginBlocks = IndexMap::new();
    let mut tree: Vec<LayerNode> = Vec::new();
    sync_tree(&mut tree, &instruments, &midi_clips, &waveforms, &plugin_blocks, &groups);
    assert_eq!(shape(&tree), vec![(40, Group, true, vec![(1, Instrument, false)])]);
    // A second sync keeps it so.
    sync_tree(&mut tree, &instruments, &midi_clips, &waveforms, &plugin_blocks, &groups);
    assert_eq!(shape(&tree), vec![(40, Group, true, vec![(1, Instrument, false)])]);
}
