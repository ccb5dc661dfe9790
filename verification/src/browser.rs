//! The layers panel: the flat rows shown for a tree, and drag-and-drop
//! targets computed from them.
use vstd::prelude::*;
use vstd::string::StrSliceExecFns;
use vstd::string::StringExecFns;
use crate::EntityId;
use crate::kind::LayerNodeKind;
use crate::text::{text_eq, id_text, decimal};
use crate::tree::{
    LayerNode, NodeView, DropTarget, forest, first_pos, first_group_parent, lemma_children_view,
    position_of, lemma_first_pos_at, lemma_first_pos_none, is_first_at, has_id, unique_ids,
    is_first_group_parent, lemma_first_group_parent_at, lemma_child_unique, lemma_first_pos_some,
};
use crate::catalog::{
    Instruments, MidiClips, Waveforms, PluginBlocks, Groups, InstrumentEntry, MidiClipEntry,
    WaveformEntry, PluginBlockEntry, GroupEntry, has_key, key_value, sole_key_at, instrument_entries,
    midi_clip_entries, waveform_entries, plugin_block_entries, group_entries, instrument_get,
    midi_clip_get, waveform_get, plugin_block_get, group_get,
};

verus! {

/// A row of the layers panel.
#[derive(Clone, Debug)]
pub struct FlatLayerRow {
    pub entity_id: EntityId,
    pub kind: LayerNodeKind,
    pub depth: usize,
    pub has_children: bool,
    pub expanded: bool,
    pub label: String,
}

/// The value of a row.
pub struct RowView {
    pub entity_id: EntityId,
    pub kind: LayerNodeKind,
    pub depth: nat,
    pub has_children: bool,
    pub expanded: bool,
    pub label: Seq<char>,
}

impl View for FlatLayerRow {
    type V = RowView;

    open spec fn view(&self) -> RowView {
        RowView {
            entity_id: self.entity_id,
            kind: self.kind,
            depth: self.depth as nat,
            has_children: self.has_children,
            expanded: self.expanded,
            label: self.label@,
        }
    }
}

/// The values of a sequence of rows.
pub open spec fn row_views(s: Seq<FlatLayerRow>) -> Seq<RowView> {
    s.map_values(|r: FlatLayerRow| r@)
}

// ---------------------------------------------------------------------------
// Labels
// ---------------------------------------------------------------------------

/// The label of an instrument: its name, unless empty or the default
/// `instrument`; else its plugin's name, unless empty; else `Instrument`
/// followed by its identifier.
pub open spec fn instrument_label(i: Seq<(EntityId, InstrumentEntry)>, id: EntityId) -> Seq<char> {
    let fallback = "Instrument "@ + decimal(id as nat);
    if has_key(i, id) {
        let e = key_value(i, id);
        if e.name@.len() > 0 && e.name@ != "instrument"@ {
            e.name@
        } else if e.plugin_name@.len() > 0 {
            e.plugin_name@
        } else {
            fallback
        }
    } else {
        fallback
    }
}

/// The label of a MIDI clip: `MIDI (n notes)`, with `note` for a single
/// note; `MIDI` for an unknown clip.
pub open spec fn midi_clip_label(m: Seq<(EntityId, MidiClipEntry)>, id: EntityId) -> Seq<char> {
    if has_key(m, id) {
        let n = key_value(m, id).note_count;
        "MIDI ("@ + decimal(n as nat) + " note"@ + (if n == 1 {
            Seq::<char>::empty()
        } else {
            "s"@
        }) + ")"@
    } else {
        "MIDI"@
    }
}

/// The label of a waveform: the file name of its audio, unless empty; else
/// its own file name; `Audio` for an unknown waveform.
pub open spec fn waveform_label(w: Seq<(EntityId, WaveformEntry)>, id: EntityId) -> Seq<char> {
    if has_key(w, id) {
        let e = key_value(w, id);
        if e.audio_filename@.len() > 0 {
            e.audio_filename@
        } else {
            e.filename@
        }
    } else {
        "Audio"@
    }
}

/// The label of a plugin block: its plugin's name; `Plugin` when unknown.
pub open spec fn plugin_block_label(p: Seq<(EntityId, PluginBlockEntry)>, id: EntityId) -> Seq<char> {
    if has_key(p, id) {
        key_value(p, id).plugin_name@
    } else {
        "Plugin"@
    }
}

/// The label of a group: its name; `Group` when unknown.
pub open spec fn group_label(g: Seq<(EntityId, GroupEntry)>, id: EntityId) -> Seq<char> {
    if has_key(g, id) {
        key_value(g, id).name@
    } else {
        "Group"@
    }
}

/// The label shown for a node.
pub open spec fn node_label(
    n: NodeView,
    i: Seq<(EntityId, InstrumentEntry)>,
    m: Seq<(EntityId, MidiClipEntry)>,
    w: Seq<(EntityId, WaveformEntry)>,
    p: Seq<(EntityId, PluginBlockEntry)>,
    g: Seq<(EntityId, GroupEntry)>,
) -> Seq<char> {
    match n.kind {
        LayerNodeKind::Instrument => instrument_label(i, n.entity_id),
        LayerNodeKind::MidiClip => midi_clip_label(m, n.entity_id),
        LayerNodeKind::Waveform => waveform_label(w, n.entity_id),
        LayerNodeKind::PluginBlock => plugin_block_label(p, n.entity_id),
        LayerNodeKind::TextNote => "Text Note"@,
        LayerNodeKind::Group => group_label(g, n.entity_id),
    }
}

fn instrument_text(instruments: &Instruments, id: EntityId) -> (r: String)
    ensures
        r@ == instrument_label(instrument_entries(*instruments), id),
{
    let ghost i = instrument_entries(*instruments);
    if let Some(e) = instrument_get(instruments, &id) {
        proof {
            let j = choose|j: int| 0 <= j < i.len() && i[j].0 == id;
            let j0 = choose|j0: int| sole_key_at(i, id, j0) && i[j0].1 == *e;
            assert(j == j0);
        }
        if e.name.as_str().unicode_len() > 0 && !text_eq(e.name.as_str(), "instrument") {
            return e.name.clone();
        } else if e.plugin_name.as_str().unicode_len() > 0 {
            return e.plugin_name.clone();
        }
    }
    let mut s = "Instrument ".to_owned();
    s.append(id_text(id).as_str());
    s
}

fn midi_clip_text(midi_clips: &MidiClips, id: EntityId) -> (r: String)
    ensures
        r@ == midi_clip_label(midi_clip_entries(*midi_clips), id),
{
    let ghost m = midi_clip_entries(*midi_clips);
    match midi_clip_get(midi_clips, &id) {
        Some(e) => {
            proof {
                let j = choose|j: int| 0 <= j < m.len() && m[j].0 == id;
                let j0 = choose|j0: int| sole_key_at(m, id, j0) && m[j0].1 == *e;
                assert(j == j0);
            }
            let n = e.note_count;
            let mut s = "MIDI (".to_owned();
            s.append(id_text(n as u64).as_str());
            s.append(" note");
            if n != 1 {
                s.append("s");
            }
            s.append(")");
            proof {
                if n == 1 {
                    assert(s@ =~= "MIDI ("@ + decimal(n as nat) + " note"@ + Seq::<char>::empty()
                        + ")"@);
                }
            }
            s
        },
        None => "MIDI".to_owned(),
    }
}

fn waveform_text(waveforms: &Waveforms, id: EntityId) -> (r: String)
    ensures
        r@ == waveform_label(waveform_entries(*waveforms), id),
{
    let ghost w = waveform_entries(*waveforms);
    match waveform_get(waveforms, &id) {
        Some(e) => {
            proof {
                let j = choose|j: int| 0 <= j < w.len() && w[j].0 == id;
                let j0 = choose|j0: int| sole_key_at(w, id, j0) && w[j0].1 == *e;
                assert(j == j0);
            }
            if e.audio_filename.as_str().unicode_len() > 0 {
                e.audio_filename.clone()
            } else {
                e.filename.clone()
            }
        },
        None => "Audio".to_owned(),
    }
}

fn plugin_block_text(plugin_blocks: &PluginBlocks, id: EntityId) -> (r: String)
    ensures
        r@ == plugin_block_label(plugin_block_entries(*plugin_blocks), id),
{
    let ghost p = plugin_block_entries(*plugin_blocks);
    match plugin_block_get(plugin_blocks, &id) {
        Some(e) => {
            proof {
                let j = choose|j: int| 0 <= j < p.len() && p[j].0 == id;
                let j0 = choose|j0: int| sole_key_at(p, id, j0) && p[j0].1 == *e;
                assert(j == j0);
            }
            e.plugin_name.clone()
        },
        None => "Plugin".to_owned(),
    }
}

fn group_text(groups: &Groups, id: EntityId) -> (r: String)
    ensures
        r@ == group_label(group_entries(*groups), id),
{
    let ghost g = group_entries(*groups);
    match group_get(groups, &id) {
        Some(e) => {
            proof {
                let j = choose|j: int| 0 <= j < g.len() && g[j].0 == id;
                let j0 = choose|j0: int| sole_key_at(g, id, j0) && g[j0].1 == *e;
                assert(j == j0);
            }
            e.name.clone()
        },
        None => "Group".to_owned(),
    }
}

/// The label shown for a node of the given kind and identifier.
pub fn layer_label(
    kind: LayerNodeKind,
    id: EntityId,
    instruments: &Instruments,
    midi_clips: &MidiClips,
    waveforms: &Waveforms,
    plugin_blocks: &PluginBlocks,
    groups: &Groups,
) -> (r: String)
    ensures
        r@ == node_label(
            NodeView { entity_id: id, kind, expanded: false, children: Seq::empty() },
            instrument_entries(*instruments),
            midi_clip_entries(*midi_clips),
            waveform_entries(*waveforms),
            plugin_block_entries(*plugin_blocks),
            group_entries(*groups),
        ),
{
    match kind {
        LayerNodeKind::Instrument => instrument_text(instruments, id),
        LayerNodeKind::MidiClip => midi_clip_text(midi_clips, id),
        LayerNodeKind::Waveform => waveform_text(waveforms, id),
        LayerNodeKind::PluginBlock => plugin_block_text(plugin_blocks, id),
        LayerNodeKind::TextNote => "Text Note".to_owned(),
        LayerNodeKind::Group => group_text(groups, id),
    }
}

// ---------------------------------------------------------------------------
// Flattening
// ---------------------------------------------------------------------------

/// The row shown for node `n` at depth `depth`.
pub open spec fn row_of(
    n: NodeView,
    depth: nat,
    i: Seq<(EntityId, InstrumentEntry)>,
    m: Seq<(EntityId, MidiClipEntry)>,
    w: Seq<(EntityId, WaveformEntry)>,
    p: Seq<(EntityId, PluginBlockEntry)>,
    g: Seq<(EntityId, GroupEntry)>,
) -> RowView {
    RowView {
        entity_id: n.entity_id,
        kind: n.kind,
        depth,
        has_children: n.children.len() > 0,
        expanded: n.expanded,
        label: node_label(n, i, m, w, p, g),
    }
}

/// The rows shown for node `n` at depth `depth`: its own row, then, when it
/// is expanded, the rows of its children one level deeper.
pub open spec fn node_rows(
    n: NodeView,
    depth: nat,
    i: Seq<(EntityId, InstrumentEntry)>,
    m: Seq<(EntityId, MidiClipEntry)>,
    w: Seq<(EntityId, WaveformEntry)>,
    p: Seq<(EntityId, PluginBlockEntry)>,
    g: Seq<(EntityId, GroupEntry)>,
) -> Seq<RowView>
    decreases n,
{
    seq![row_of(n, depth, i, m, w, p, g)] + if n.expanded {
        forest_rows(n.children, depth + 1, i, m, w, p, g)
    } else {
        Seq::empty()
    }
}

/// The rows shown for the nodes `s` at depth `depth`, node after node.
pub open spec fn forest_rows(
    s: Seq<NodeView>,
    depth: nat,
    i: Seq<(EntityId, InstrumentEntry)>,
    m: Seq<(EntityId, MidiClipEntry)>,
    w: Seq<(EntityId, WaveformEntry)>,
    p: Seq<(EntityId, PluginBlockEntry)>,
    g: Seq<(EntityId, GroupEntry)>,
) -> Seq<RowView>
    decreases s,
{
    if s.len() == 0 {
        Seq::empty()
    } else {
        forest_rows(s.subrange(0, s.len() - 1), depth, i, m, w, p, g) + node_rows(
            s[s.len() - 1],
            depth,
            i,
            m,
            w,
            p,
            g,
        )
    }
}

fn flatten_node(
    node: &LayerNode,
    depth: usize,
    rows: &mut Vec<FlatLayerRow>,
    instruments: &Instruments,
    midi_clips: &MidiClips,
    waveforms: &Waveforms,
    plugin_blocks: &PluginBlocks,
    groups: &Groups,
)
    requires
        depth <= old(rows)@.len(),
    ensures
        final(rows)@.len() > old(rows)@.len(),
        row_views(final(rows)@) == row_views(old(rows)@) + node_rows(
            node@,
            depth as nat,
            instrument_entries(*instruments),
            midi_clip_entries(*midi_clips),
            waveform_entries(*waveforms),
            plugin_block_entries(*plugin_blocks),
            group_entries(*groups),
        ),
    decreases node,
{
    let ghost (i, m, w, p, g) = (
        instrument_entries(*instruments),
        midi_clip_entries(*midi_clips),
        waveform_entries(*waveforms),
        plugin_block_entries(*plugin_blocks),
        group_entries(*groups),
    );
    proof {
        lemma_children_view(*node);
    }
    let label = layer_label(
        node.kind,
        node.entity_id,
        instruments,
        midi_clips,
        waveforms,
        plugin_blocks,
        groups,
    );
    let row = FlatLayerRow {
        entity_id: node.entity_id,
        kind: node.kind,
        depth,
        has_children: node.children.len() > 0,
        expanded: node.expanded,
        label,
    };
    let ghost before = row_views(rows@);
    rows.push(row);
    assert(row@ == row_of(node@, depth as nat, i, m, w, p, g));
    assert(row_views(rows@) =~= before.push(row@));
    if node.expanded {
        let ghost f = node@.children;
        let mut k: usize = 0;
        while k < node.children.len()
            invariant
                i == instrument_entries(*instruments),
                m == midi_clip_entries(*midi_clips),
                w == waveform_entries(*waveforms),
                p == plugin_block_entries(*plugin_blocks),
                g == group_entries(*groups),
                f == node@.children,
                f == forest(node.children@),
                depth < rows@.len(),
                k <= node.children@.len(),
                row_views(rows@) == before.push(row@) + forest_rows(
                    f.subrange(0, k as int),
                    depth as nat + 1,
                    i,
                    m,
                    w,
                    p,
                    g,
                ),
            decreases node.children@.len() - k,
        {
            let cur = rows.len();
            assert(depth + 1 <= cur);
            flatten_node(
                &node.children[k],
                depth + 1,
                rows,
                instruments,
                midi_clips,
                waveforms,
                plugin_blocks,
                groups,
            );
            proof {
                let t = f.subrange(0, k + 1);
                assert(t.subrange(0, t.len() - 1) =~= f.subrange(0, k as int));
                assert(t[t.len() - 1] == node.children@[k as int]@);
            }
            k = k + 1;
        }
        assert(f.subrange(0, k as int) =~= f);
    }
}

/// The rows shown for a tree: each root, followed by the rows of its children
/// when it is expanded, and so on down.
pub fn flatten_tree(
    tree: &[LayerNode],
    instruments: &Instruments,
    midi_clips: &MidiClips,
    waveforms: &Waveforms,
    plugin_blocks: &PluginBlocks,
    groups: &Groups,
) -> (rows: Vec<FlatLayerRow>)
    ensures
        row_views(rows@) == forest_rows(
            forest(tree@),
            0,
            instrument_entries(*instruments),
            midi_clip_entries(*midi_clips),
            waveform_entries(*waveforms),
            plugin_block_entries(*plugin_blocks),
            group_entries(*groups),
        ),
{
    let ghost (i, m, w, p, g) = (
        instrument_entries(*instruments),
        midi_clip_entries(*midi_clips),
        waveform_entries(*waveforms),
        plugin_block_entries(*plugin_blocks),
        group_entries(*groups),
    );
    let ghost f = forest(tree@);
    let mut rows: Vec<FlatLayerRow> = Vec::new();
    let mut k: usize = 0;
    while k < tree.len()
        invariant
            i == instrument_entries(*instruments),
            m == midi_clip_entries(*midi_clips),
            w == waveform_entries(*waveforms),
            p == plugin_block_entries(*plugin_blocks),
            g == group_entries(*groups),
            f == forest(tree@),
            k <= tree@.len(),
            row_views(rows@) == forest_rows(f.subrange(0, k as int), 0, i, m, w, p, g),
        decreases tree@.len() - k,
    {
        flatten_node(&tree[k], 0, &mut rows, instruments, midi_clips, waveforms, plugin_blocks, groups);
        proof {
            let t = f.subrange(0, k + 1);
            assert(t.subrange(0, t.len() - 1) =~= f.subrange(0, k as int));
            assert(t[t.len() - 1] == tree@[k as int]@);
        }
        k = k + 1;
    }
    assert(f.subrange(0, k as int) =~= f);
    rows
}

// ---------------------------------------------------------------------------
// Drag-and-drop
// ---------------------------------------------------------------------------

/// Where, vertically, the pointer is within a row: above 30% of its height,
/// from 30% to below 50%, from 50% to 70%, or below 70% (or not a number).
#[derive(Clone, Copy, Debug, PartialEq, Eq, Structural)]
pub enum DropZone {
    TopEdge,
    UpperMiddle,
    LowerMiddle,
    BottomEdge,
}

/// The zone is the middle 40% of the row.
pub open spec fn in_middle(z: DropZone) -> bool {
    z is UpperMiddle || z is LowerMiddle
}

/// The zone is in the top half of the row.
pub open spec fn in_upper_half(z: DropZone) -> bool {
    z is TopEdge || z is UpperMiddle
}

/// `i` is the first position in `s` of a row with identifier `id`.
pub open spec fn is_first_row(s: Seq<RowView>, id: EntityId, i: int) -> bool {
    &&& 0 <= i < s.len()
    &&& s[i].entity_id == id
    &&& forall|j: int| 0 <= j < i ==> s[j].entity_id != id
}

/// The first position in `s` of a row with identifier `id`.
pub open spec fn first_row(s: Seq<RowView>, id: EntityId) -> Option<int> {
    if exists|i: int| is_first_row(s, id, i) {
        Some(choose|i: int| is_first_row(s, id, i))
    } else {
        None
    }
}

/// The first position, among `rows`, of a row with identifier `id`.
fn row_position(rows: &[FlatLayerRow], id: EntityId) -> (r: Option<usize>)
    ensures
        r matches Some(i) ==> i < rows@.len() && first_row(row_views(rows@), id) == Some(i as int),
        r is None ==> first_row(row_views(rows@), id) is None,
{
    let ghost f = row_views(rows@);
    let mut i: usize = 0;
    while i < rows.len()
        invariant
            f == row_views(rows@),
            i <= rows@.len(),
            forall|j: int| 0 <= j < i ==> f[j].entity_id != id,
        decreases rows@.len() - i,
    {
        if rows[i].entity_id == id {
            proof {
                assert(is_first_row(f, id, i as int));
                let j = choose|j: int| is_first_row(f, id, j);
                if j < i {
                    assert(f[j].entity_id != id);
                }
                if j > i {
                    assert(f[i as int].entity_id != id);
                }
            }
            return Some(i);
        }
        i = i + 1;
    }
    proof {
        if exists|j: int| is_first_row(f, id, j) {
            let j = choose|j: int| is_first_row(f, id, j);
            assert(f[j].entity_id != id);
        }
    }
    None
}

/// Where a node dragged onto row `idx` in zone `zone` lands. Past the last row
/// it goes after the last root; onto its own row nowhere. In the middle of a
/// group's row it goes at the end of that group (of the first root with the
/// group's identifier; at position 0 when there is none). On a child row,
/// when the first group holding that child is found again by its identifier
/// and holds the child, it goes before the child (top half) or after it
/// (bottom half) within that group. Otherwise, on a root's row, it goes before
/// the first root with that identifier (top half) or after it; on any other
/// row nowhere.
pub open spec fn drop_target_for(
    rows: Seq<RowView>,
    tree: Seq<NodeView>,
    idx: int,
    zone: DropZone,
    dragged: EntityId,
) -> Option<DropTarget> {
    if idx >= rows.len() {
        Some(DropTarget::AfterLastRoot)
    } else {
        let row = rows[idx];
        let parent = first_group_parent(tree, row.entity_id);
        let group_pos = if parent is Some {
            first_pos(tree, tree[parent->0].entity_id)
        } else {
            None
        };
        let child_pos = if group_pos is Some {
            first_pos(tree[group_pos->0].children, row.entity_id)
        } else {
            None
        };
        if row.entity_id == dragged {
            None
        } else if row.kind == LayerNodeKind::Group && in_middle(zone) {
            let count = match first_pos(tree, row.entity_id) {
                Some(k) => tree[k].children.len() as int,
                None => 0,
            };
            Some(DropTarget::InsideGroup { group_id: row.entity_id, child_index: count as usize })
        } else if row.depth > 0 && child_pos is Some {
            let group_id = tree[parent->0].entity_id;
            let c = child_pos->0;
            if in_upper_half(zone) {
                Some(DropTarget::InsideGroup { group_id, child_index: c as usize })
            } else {
                Some(DropTarget::InsideGroup { group_id, child_index: (c + 1) as usize })
            }
        } else if first_pos(tree, row.entity_id) is Some {
            let r = first_pos(tree, row.entity_id)->0;
            if in_upper_half(zone) {
                Some(DropTarget::BeforeRoot(r as usize))
            } else if r + 1 >= tree.len() {
                Some(DropTarget::AfterLastRoot)
            } else {
                Some(DropTarget::BeforeRoot((r + 1) as usize))
            }
        } else {
            None
        }
    }
}

/// Computes where a dragged node would land when dropped on row
/// `mouse_flat_index` in zone `zone`, as [`drop_target_for`] says; `None`
/// when dropping onto itself or nowhere valid.
pub fn compute_drop_target(
    flat_rows: &[FlatLayerRow],
    tree: &[LayerNode],
    mouse_flat_index: usize,
    zone: DropZone,
    dragged_id: EntityId,
) -> (r: Option<DropTarget>)
    ensures
        r == drop_target_for(
            row_views(flat_rows@),
            forest(tree@),
            mouse_flat_index as int,
            zone,
            dragged_id,
        ),
{
    let ghost f = forest(tree@);
    if mouse_flat_index >= flat_rows.len() {
        return Some(DropTarget::AfterLastRoot);
    }
    let row = &flat_rows[mouse_flat_index];
    assert(row@ == row_views(flat_rows@)[mouse_flat_index as int]);
    if row.entity_id == dragged_id {
        return None;
    }
    let middle = match zone {
        DropZone::UpperMiddle | DropZone::LowerMiddle => true,
        _ => false,
    };
    let upper = match zone {
        DropZone::TopEdge | DropZone::UpperMiddle => true,
        _ => false,
    };
    if row.kind == LayerNodeKind::Group && middle {
        let child_count = match position_of(tree, row.entity_id) {
            Some(k) => {
                proof {
                    lemma_children_view(tree@[k as int]);
                }
                tree[k].children.len()
            },
            None => 0,
        };
        return Some(DropTarget::InsideGroup { group_id: row.entity_id, child_index: child_count });
    }
    if row.depth > 0 {
        if let Some(parent_group_id) = crate::tree::find_parent_group(tree, row.entity_id) {
            if let Some(g) = position_of(tree, parent_group_id) {
                proof {
                    lemma_children_view(tree@[g as int]);
                }
                if let Some(child_idx) = position_of(&tree[g].children, row.entity_id) {
                    let len = tree[g].children.len();
                    assert(child_idx < len);
                    if upper {
                        return Some(
                            DropTarget::InsideGroup {
                                group_id: parent_group_id,
                                child_index: child_idx,
                            },
                        );
                    } else {
                        return Some(
                            DropTarget::InsideGroup {
                                group_id: parent_group_id,
                                child_index: child_idx + 1,
                            },
                        );
                    }
                }
            }
        }
    }
    match position_of(tree, row.entity_id) {
        Some(root_idx) => {
            if upper {
                Some(DropTarget::BeforeRoot(root_idx))
            } else {
                let len = tree.len();
                if root_idx + 1 >= len {
                    Some(DropTarget::AfterLastRoot)
                } else {
                    Some(DropTarget::BeforeRoot(root_idx + 1))
                }
            }
        },
        None => None,
    }
}

/// Where to draw the marker for a drop target: the row index, the depth and
/// whether the drop is inside a group. Inside a group: the group's first row;
/// before a root: that root's first row, or past the last row when the index
/// is past the roots; after the last root: past the last row. `None` when the
/// row to mark is not shown.
pub open spec fn indicator_for(target: DropTarget, tree: Seq<NodeView>, rows: Seq<RowView>) -> Option<
    (usize, usize, bool),
> {
    match target {
        DropTarget::InsideGroup { group_id, .. } => match first_row(rows, group_id) {
            Some(r) => Some((r as usize, 0usize, true)),
            None => None,
        },
        DropTarget::BeforeRoot(idx) => {
            if idx < tree.len() {
                match first_row(rows, tree[idx as int].entity_id) {
                    Some(r) => Some((r as usize, 0usize, false)),
                    None => None,
                }
            } else {
                Some((rows.len() as usize, 0usize, false))
            }
        },
        DropTarget::AfterLastRoot => Some((rows.len() as usize, 0usize, false)),
    }
}

/// The marker position for a drop target, as [`indicator_for`] says.
pub fn drop_target_indicator(
    target: &DropTarget,
    tree: &[LayerNode],
    flat_rows: &[FlatLayerRow],
) -> (r: Option<(usize, usize, bool)>)
    ensures
        r == indicator_for(*target, forest(tree@), row_views(flat_rows@)),
{
    match target {
        DropTarget::InsideGroup { group_id, .. } => match row_position(flat_rows, *group_id) {
            Some(idx) => Some((idx, 0, true)),
            None => None,
        },
        DropTarget::BeforeRoot(root_idx) => {
            if *root_idx < tree.len() {
                match row_position(flat_rows, tree[*root_idx].entity_id) {
                    Some(idx) => Some((idx, 0, false)),
                    None => None,
                }
            } else {
                Some((flat_rows.len(), 0, false))
            }
        },
        DropTarget::AfterLastRoot => Some((flat_rows.len(), 0, false)),
    }
}


/// In a tree where no identifier occurs twice, a node dragged onto the row of
/// a child of a group lands inside that group: before the child when the
/// pointer is in the top half of the row, after it when in the bottom half.
pub proof fn law_drop_on_child_row(
    rows: Seq<RowView>,
    tree: Seq<NodeView>,
    idx: int,
    zone: DropZone,
    dragged: EntityId,
    k: int,
    c: int,
)
    requires
        unique_ids(tree),
        0 <= idx < rows.len(),
        rows[idx].entity_id != dragged,
        rows[idx].depth > 0,
        rows[idx].kind != LayerNodeKind::Group,
        0 <= k < tree.len(),
        tree[k].kind == LayerNodeKind::Group,
        0 <= c < tree[k].children.len(),
        tree[k].children[c].entity_id == rows[idx].entity_id,
    ensures
        zone is TopEdge || zone is UpperMiddle ==> drop_target_for(rows, tree, idx, zone, dragged)
            == Some(DropTarget::InsideGroup { group_id: tree[k].entity_id, child_index: c as usize }),
        zone is LowerMiddle || zone is BottomEdge ==> drop_target_for(rows, tree, idx, zone, dragged)
            == Some(
            DropTarget::InsideGroup { group_id: tree[k].entity_id, child_index: (c + 1) as usize },
        ),
{
    let id = rows[idx].entity_id;
    lemma_child_unique(tree, id, k, c);
    assert(is_first_group_parent(tree, id, k)) by {
        assert(has_id(tree[k].children, id));
        assert forall|j: int| 0 <= j < k implies !(tree[j].kind == LayerNodeKind::Group && has_id(
            #[trigger] tree[j].children,
            id,
        )) by {
            if has_id(tree[j].children, id) {
                lemma_first_pos_some(tree[j].children, id);
            }
        }
    }
    lemma_first_group_parent_at(tree, id, k);
    assert(is_first_at(tree, tree[k].entity_id, k)) by {
        assert forall|j: int| 0 <= j < k implies tree[j].entity_id != tree[k].entity_id by {}
    }
    lemma_first_pos_at(tree, tree[k].entity_id, k);
}

/// Node `v` occurs in the forest `s` at `level` (0 for a node of `s`, 1 for
/// a child of one, and so on).
pub open spec fn occurs(s: Seq<NodeView>, v: NodeView, level: int) -> bool
    decreases s,
{
    if s.len() == 0 {
        false
    } else {
        occurs(s.subrange(0, s.len() - 1), v, level) || (s[s.len() - 1] == v && level == 0) || occurs(
            s[s.len() - 1].children,
            v,
            level - 1,
        )
    }
}

/// Row `r` shows node `v`: its identifier, kind, expanded flag, and whether
/// it has children.
pub open spec fn shows(r: RowView, v: NodeView) -> bool {
    &&& r.entity_id == v.entity_id
    &&& r.kind == v.kind
    &&& r.expanded == v.expanded
    &&& r.has_children == (v.children.len() > 0)
}

/// Row `r` shows some node that occurs in `s`, indented by that node's level
/// below `depth`.
pub open spec fn shows_node_of(s: Seq<NodeView>, depth: nat, r: RowView) -> bool {
    exists|v: NodeView, level: int| occurs(s, v, level) && shows(r, v) && r.depth == depth + level
}

/// Every row of the flattened tree shows a node of the tree as it is, with
/// the node's own identifier, kind, expanded flag and children flag, at the
/// node's depth in the tree.
pub proof fn law_rows_show_nodes(
    s: Seq<NodeView>,
    depth: nat,
    i: Seq<(EntityId, InstrumentEntry)>,
    m: Seq<(EntityId, MidiClipEntry)>,
    w: Seq<(EntityId, WaveformEntry)>,
    p: Seq<(EntityId, PluginBlockEntry)>,
    g: Seq<(EntityId, GroupEntry)>,
)
    ensures
        forall|j: int|
            0 <= j < forest_rows(s, depth, i, m, w, p, g).len() ==> shows_node_of(
                s,
                depth,
                #[trigger] forest_rows(s, depth, i, m, w, p, g)[j],
            ),
    decreases s,
{
    if s.len() > 0 {
        let d = s.subrange(0, s.len() - 1);
        let n = s[s.len() - 1];
        law_rows_show_nodes(d, depth, i, m, w, p, g);
        law_rows_show_nodes(n.children, depth + 1, i, m, w, p, g);
        let a = forest_rows(d, depth, i, m, w, p, g);
        let b = node_rows(n, depth, i, m, w, p, g);
        let cr = forest_rows(n.children, depth + 1, i, m, w, p, g);
        assert(forest_rows(s, depth, i, m, w, p, g) == a + b);
        assert forall|j: int| 0 <= j < forest_rows(s, depth, i, m, w, p, g).len() implies shows_node_of(
            s,
            depth,
            #[trigger] forest_rows(s, depth, i, m, w, p, g)[j],
        ) by {
            let r = forest_rows(s, depth, i, m, w, p, g)[j];
            assert(r == (a + b)[j]);
            if j < a.len() {
                assert(r == a[j]);
                assert(shows_node_of(d, depth, a[j]));
                let (v, l) = choose|v: NodeView, l: int|
                    occurs(d, v, l) && shows(a[j], v) && a[j].depth == depth + l;
                assert(occurs(s, v, l) && shows(r, v) && r.depth == depth + l);
            } else if j == a.len() {
                assert(r == b[0]);
                assert(occurs(s, n, 0) && shows(r, n) && r.depth == depth + 0);
            } else {
                assert(n.expanded);
                let c = cr[j - a.len() - 1];
                assert(r == c);
                assert(shows_node_of(n.children, depth + 1, c));
                let (v, l) = choose|v: NodeView, l: int|
                    occurs(n.children, v, l) && shows(c, v) && c.depth == depth + 1 + l;
                assert(occurs(s, v, l + 1) && shows(r, v) && r.depth == depth + (l + 1));
            }
        }
    } else {
        assert(forest_rows(s, depth, i, m, w, p, g).len() == 0);
    }
}

/// In a tree where no identifier occurs twice, a node dragged onto the row
/// of a root that is no child: in the middle of a group's row it goes at the
/// end of that group; otherwise before that root when the pointer is in the
/// top half of the row, and after it (after all roots, for the last one) when
/// in the bottom half.
pub proof fn law_drop_on_root_row(
    rows: Seq<RowView>,
    tree: Seq<NodeView>,
    idx: int,
    zone: DropZone,
    dragged: EntityId,
    k: int,
)
    requires
        unique_ids(tree),
        0 <= idx < rows.len(),
        rows[idx].entity_id != dragged,
        0 <= k < tree.len(),
        tree[k].entity_id == rows[idx].entity_id,
    ensures
        rows[idx].kind == LayerNodeKind::Group && (zone is UpperMiddle || zone is LowerMiddle)
            ==> drop_target_for(rows, tree, idx, zone, dragged) == Some(
            DropTarget::InsideGroup {
                group_id: tree[k].entity_id,
                child_index: tree[k].children.len() as usize,
            },
        ),
        !(rows[idx].kind == LayerNodeKind::Group && (zone is UpperMiddle || zone is LowerMiddle))
            && (zone is TopEdge || zone is UpperMiddle) ==> drop_target_for(
            rows,
            tree,
            idx,
            zone,
            dragged,
        ) == Some(DropTarget::BeforeRoot(k as usize)),
        !(rows[idx].kind == LayerNodeKind::Group && (zone is UpperMiddle || zone is LowerMiddle))
            && (zone is LowerMiddle || zone is BottomEdge) ==> drop_target_for(
            rows,
            tree,
            idx,
            zone,
            dragged,
        ) == if k + 1 < tree.len() {
            Some(DropTarget::BeforeRoot((k + 1) as usize))
        } else {
            Some(DropTarget::AfterLastRoot)
        },
{
    let id = rows[idx].entity_id;
    assert(is_first_at(tree, id, k)) by {
        assert forall|j: int| 0 <= j < k implies tree[j].entity_id != id by {}
    }
    lemma_first_pos_at(tree, id, k);
    // A root is nobody's child, so no group holds it.
    assert forall|j: int| 0 <= j < tree.len() implies !has_id(#[trigger] tree[j].children, id) by {
        if has_id(tree[j].children, id) {
            let c = choose|c: int| 0 <= c < tree[j].children.len() && tree[j].children[c].entity_id == id;
            assert(tree[k].entity_id != tree[j].children[c].entity_id);
        }
    }
    assert(!exists|j: int| is_first_group_parent(tree, id, j));
}

} // verus!
