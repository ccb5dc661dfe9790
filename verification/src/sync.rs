//! Building the layer tree from the entities of a project, and keeping it in
//! step with them.
use vstd::prelude::*;
use crate::EntityId;
use crate::kind::LayerNodeKind;
use crate::tree::{LayerNode, NodeView, forest, has_id, with_children, lemma_children_view, lemma_forest_push};
use std::collections::HashSet;
use crate::storage::leaf;
use crate::catalog::{
    Instruments, MidiClips, Waveforms, PluginBlocks, Groups, InstrumentEntry, MidiClipEntry,
    WaveformEntry, PluginBlockEntry, GroupEntry, has_key, key_value, sole_key_at, instrument_entries, midi_clip_entries,
    waveform_entries, plugin_block_entries, group_entries, instruments_len, instrument_at,
    instrument_get, midi_clips_len, midi_clip_at, midi_clip_get, waveforms_len, waveform_at,
    waveform_get, plugin_block_get, groups_len, group_at, group_get,
};

verus! {

/// The kind of member entity `id`, by the first map that holds it:
/// instruments, MIDI clips, waveforms, plugin blocks.
pub open spec fn member_kind_of(
    i: Seq<(EntityId, InstrumentEntry)>,
    m: Seq<(EntityId, MidiClipEntry)>,
    w: Seq<(EntityId, WaveformEntry)>,
    p: Seq<(EntityId, PluginBlockEntry)>,
    id: EntityId,
) -> Option<LayerNodeKind> {
    if has_key(i, id) {
        Some(LayerNodeKind::Instrument)
    } else if has_key(m, id) {
        Some(LayerNodeKind::MidiClip)
    } else if has_key(w, id) {
        Some(LayerNodeKind::Waveform)
    } else if has_key(p, id) {
        Some(LayerNodeKind::PluginBlock)
    } else {
        None
    }
}

/// The kind of a member entity, by the first map that holds it; `None` when
/// no map does.
pub fn member_kind(
    id: EntityId,
    instruments: &Instruments,
    midi_clips: &MidiClips,
    waveforms: &Waveforms,
    plugin_blocks: &PluginBlocks,
) -> (r: Option<LayerNodeKind>)
    ensures
        r == member_kind_of(
            instrument_entries(*instruments),
            midi_clip_entries(*midi_clips),
            waveform_entries(*waveforms),
            plugin_block_entries(*plugin_blocks),
            id,
        ),
{
    if instrument_get(instruments, &id).is_some() {
        Some(LayerNodeKind::Instrument)
    } else if midi_clip_get(midi_clips, &id).is_some() {
        Some(LayerNodeKind::MidiClip)
    } else if waveform_get(waveforms, &id).is_some() {
        Some(LayerNodeKind::Waveform)
    } else if plugin_block_get(plugin_blocks, &id).is_some() {
        Some(LayerNodeKind::PluginBlock)
    } else {
        None
    }
}

// ---------------------------------------------------------------------------
// The default tree
// ---------------------------------------------------------------------------

/// The MIDI clips of `m` that instrument `inst` plays, in order, as collapsed
/// leaves.
pub open spec fn clip_leaves(m: Seq<(EntityId, MidiClipEntry)>, inst: EntityId) -> Seq<NodeView>
    decreases m.len(),
{
    if m.len() == 0 {
        Seq::empty()
    } else {
        let rest = clip_leaves(m.drop_last(), inst);
        if m.last().1.instrument_id == Some(inst) {
            rest.push(leaf(m.last().0, LayerNodeKind::MidiClip, false))
        } else {
            rest
        }
    }
}

/// One expanded root per instrument, in order, holding the instrument's clips.
pub open spec fn instrument_roots(
    i: Seq<(EntityId, InstrumentEntry)>,
    m: Seq<(EntityId, MidiClipEntry)>,
) -> Seq<NodeView> {
    Seq::new(
        i.len(),
        |k: int|
            NodeView {
                entity_id: i[k].0,
                kind: LayerNodeKind::Instrument,
                expanded: true,
                children: clip_leaves(m, i[k].0),
            },
    )
}

/// `s` with `x` placed after every element at its end whose order key is not
/// above `x`'s: one step of a stable insertion sort.
pub open spec fn insert_by_order(s: Seq<(EntityId, u32)>, x: (EntityId, u32)) -> Seq<(EntityId, u32)>
    decreases s.len(),
{
    if s.len() == 0 || s.last().1 <= x.1 {
        s.push(x)
    } else {
        insert_by_order(s.drop_last(), x).push(s.last())
    }
}

/// `s` sorted by order key, stably (equal keys keep their order).
pub open spec fn sorted_by_order(s: Seq<(EntityId, u32)>) -> Seq<(EntityId, u32)>
    decreases s.len(),
{
    if s.len() == 0 {
        Seq::empty()
    } else {
        insert_by_order(sorted_by_order(s.drop_last()), s.last())
    }
}

/// The identifiers and order keys of the waveforms, in map order.
pub open spec fn waveform_keys(w: Seq<(EntityId, WaveformEntry)>) -> Seq<(EntityId, u32)> {
    w.map_values(|e: (EntityId, WaveformEntry)| (e.0, e.1.y_order))
}

/// One collapsed leaf per waveform, from top to bottom.
pub open spec fn waveform_roots(w: Seq<(EntityId, WaveformEntry)>) -> Seq<NodeView> {
    let s = sorted_by_order(waveform_keys(w));
    Seq::new(s.len(), |k: int| leaf(s[k].0, LayerNodeKind::Waveform, false))
}

/// The members `ids` that some map holds, in order, as collapsed leaves of
/// their kind.
pub open spec fn member_leaves(
    ids: Seq<EntityId>,
    i: Seq<(EntityId, InstrumentEntry)>,
    m: Seq<(EntityId, MidiClipEntry)>,
    w: Seq<(EntityId, WaveformEntry)>,
    p: Seq<(EntityId, PluginBlockEntry)>,
) -> Seq<NodeView>
    decreases ids.len(),
{
    if ids.len() == 0 {
        Seq::empty()
    } else {
        let rest = member_leaves(ids.drop_last(), i, m, w, p);
        match member_kind_of(i, m, w, p, ids.last()) {
            Some(k) => rest.push(leaf(ids.last(), k, false)),
            None => rest,
        }
    }
}

/// One expanded root per group, in order, holding its known members.
pub open spec fn group_roots(
    g: Seq<(EntityId, GroupEntry)>,
    i: Seq<(EntityId, InstrumentEntry)>,
    m: Seq<(EntityId, MidiClipEntry)>,
    w: Seq<(EntityId, WaveformEntry)>,
    p: Seq<(EntityId, PluginBlockEntry)>,
) -> Seq<NodeView> {
    Seq::new(
        g.len(),
        |k: int|
            NodeView {
                entity_id: g[k].0,
                kind: LayerNodeKind::Group,
                expanded: true,
                children: member_leaves(g[k].1.member_ids@, i, m, w, p),
            },
    )
}

/// The default tree: instruments with their clips, then waveforms from top to
/// bottom, then groups with their members.
pub open spec fn default_tree(
    i: Seq<(EntityId, InstrumentEntry)>,
    m: Seq<(EntityId, MidiClipEntry)>,
    w: Seq<(EntityId, WaveformEntry)>,
    p: Seq<(EntityId, PluginBlockEntry)>,
    g: Seq<(EntityId, GroupEntry)>,
) -> Seq<NodeView> {
    instrument_roots(i, m) + waveform_roots(w) + group_roots(g, i, m, w, p)
}

fn new_leaf(id: EntityId, kind: LayerNodeKind) -> (n: LayerNode)
    ensures
        n@ == leaf(id, kind, false),
{
    let n = LayerNode { entity_id: id, kind, expanded: false, children: Vec::new() };
    proof {
        lemma_children_view(n);
        assert(forest(n.children@) =~= Seq::<NodeView>::empty());
        assert(n@ =~= leaf(id, kind, false));
    }
    n
}

/// The clips of `midi_clips` that instrument `inst` plays, as leaves.
fn clips_of(midi_clips: &MidiClips, inst: EntityId) -> (r: Vec<LayerNode>)
    ensures
        forest(r@) == clip_leaves(midi_clip_entries(*midi_clips), inst),
{
    let ghost m = midi_clip_entries(*midi_clips);
    let n = midi_clips_len(midi_clips);
    let mut out: Vec<LayerNode> = Vec::new();
    let mut k: usize = 0;
    while k < n
        invariant
            m == midi_clip_entries(*midi_clips),
            n == m.len(),
            k <= n,
            forest(out@) == clip_leaves(m.take(k as int), inst),
        decreases n - k,
    {
        let ghost t = m.take(k + 1);
        assert(t.drop_last() =~= m.take(k as int));
        if let Some((id, mc)) = midi_clip_at(midi_clips, k) {
            assert(t.last() == m[k as int]);
            if mc.instrument_id == Some(inst) {
                let ghost before = out@;
                out.push(new_leaf(*id, LayerNodeKind::MidiClip));
                assert(forest(out@) =~= forest(before).push(leaf(*id, LayerNodeKind::MidiClip, false)));
            }
        }
        k = k + 1;
    }
    assert(m.take(n as int) =~= m);
    out
}

/// Places `x` into `v` as [`insert_by_order`] says.
fn insert_sorted(v: &mut Vec<(EntityId, u32)>, x: (EntityId, u32))
    ensures
        final(v)@ == insert_by_order(old(v)@, x),
    decreases old(v)@.len(),
{
    let len = v.len();
    if len == 0 || v[len - 1].1 <= x.1 {
        v.push(x);
    } else {
        let last = v.pop().unwrap();
        assert(v@ =~= old(v)@.drop_last());
        insert_sorted(v, x);
        v.push(last);
    }
}

/// The members `ids` that some map holds, as leaves of their kind.
fn members_of(
    ids: &Vec<EntityId>,
    instruments: &Instruments,
    midi_clips: &MidiClips,
    waveforms: &Waveforms,
    plugin_blocks: &PluginBlocks,
) -> (r: Vec<LayerNode>)
    ensures
        forest(r@) == member_leaves(
            ids@,
            instrument_entries(*instruments),
            midi_clip_entries(*midi_clips),
            waveform_entries(*waveforms),
            plugin_block_entries(*plugin_blocks),
        ),
{
    let ghost (i, m, w, p) = (
        instrument_entries(*instruments),
        midi_clip_entries(*midi_clips),
        waveform_entries(*waveforms),
        plugin_block_entries(*plugin_blocks),
    );
    let mut out: Vec<LayerNode> = Vec::new();
    let mut k: usize = 0;
    while k < ids.len()
        invariant
            i == instrument_entries(*instruments),
            m == midi_clip_entries(*midi_clips),
            w == waveform_entries(*waveforms),
            p == plugin_block_entries(*plugin_blocks),
            k <= ids@.len(),
            forest(out@) == member_leaves(ids@.take(k as int), i, m, w, p),
        decreases ids@.len() - k,
    {
        let ghost t = ids@.take(k + 1);
        assert(t.drop_last() =~= ids@.take(k as int));
        let mid = ids[k];
        if let Some(kind) = member_kind(mid, instruments, midi_clips, waveforms, plugin_blocks) {
            let ghost before = out@;
            out.push(new_leaf(mid, kind));
            assert(forest(out@) =~= forest(before).push(leaf(mid, kind, false)));
        }
        k = k + 1;
    }
    assert(ids@.take(k as int) =~= ids@);
    out
}

/// Builds the default layer tree from the entity maps: instruments (in map
/// order) with their MIDI clips as children, then waveforms sorted from top
/// to bottom, then groups with their members as children.
pub fn build_default_tree(
    instruments: &Instruments,
    midi_clips: &MidiClips,
    waveforms: &Waveforms,
    plugin_blocks: &PluginBlocks,
    groups: &Groups,
) -> (tree: Vec<LayerNode>)
    ensures
        forest(tree@) == default_tree(
            instrument_entries(*instruments),
            midi_clip_entries(*midi_clips),
            waveform_entries(*waveforms),
            plugin_block_entries(*plugin_blocks),
            group_entries(*groups),
        ),
{
    let ghost (i, m, w, p, g) = (
        instrument_entries(*instruments),
        midi_clip_entries(*midi_clips),
        waveform_entries(*waveforms),
        plugin_block_entries(*plugin_blocks),
        group_entries(*groups),
    );
    let mut tree: Vec<LayerNode> = Vec::new();
    // Instruments, each with the clips it plays.
    let ni = instruments_len(instruments);
    let mut k: usize = 0;
    while k < ni
        invariant
            i == instrument_entries(*instruments),
            m == midi_clip_entries(*midi_clips),
            ni == i.len(),
            k <= ni,
            forest(tree@) == instrument_roots(i, m).take(k as int),
        decreases ni - k,
    {
        if let Some((id, _)) = instrument_at(instruments, k) {
            let children = clips_of(midi_clips, *id);
            let node = LayerNode {
                entity_id: *id,
                kind: LayerNodeKind::Instrument,
                expanded: true,
                children,
            };
            let ghost before = tree@;
            tree.push(node);
            proof {
                lemma_children_view(node);
                lemma_forest_push(before, node);
                assert(node@ =~= instrument_roots(i, m)[k as int]);
                assert(forest(tree@) =~= instrument_roots(i, m).take(k + 1));
            }
        }
        k = k + 1;
    }
    assert(instrument_roots(i, m).take(ni as int) =~= instrument_roots(i, m));
    // Waveforms, from top to bottom.
    let ghost before_w = forest(tree@);
    let nw = waveforms_len(waveforms);
    let mut order: Vec<(EntityId, u32)> = Vec::new();
    let mut k: usize = 0;
    while k < nw
        invariant
            w == waveform_entries(*waveforms),
            nw == w.len(),
            k <= nw,
            order@ == sorted_by_order(waveform_keys(w).take(k as int)),
        decreases nw - k,
    {
        if let Some((id, wf)) = waveform_at(waveforms, k) {
            let ghost t = waveform_keys(w).take(k + 1);
            assert(t.drop_last() =~= waveform_keys(w).take(k as int));
            insert_sorted(&mut order, (*id, wf.y_order));
        }
        k = k + 1;
    }
    assert(waveform_keys(w).take(nw as int) =~= waveform_keys(w));
    let mut k: usize = 0;
    while k < order.len()
        invariant
            order@ == sorted_by_order(waveform_keys(w)),
            k <= order@.len(),
            forest(tree@) == before_w + waveform_roots(w).take(k as int),
        decreases order@.len() - k,
    {
        let ghost before = tree@;
        let node = new_leaf(order[k].0, LayerNodeKind::Waveform);
        tree.push(node);
        proof {
            lemma_forest_push(before, node);
        }
        assert(forest(tree@) =~= before_w + waveform_roots(w).take(k + 1));
        k = k + 1;
    }
    assert(waveform_roots(w).take(k as int) =~= waveform_roots(w));
    // Groups, each with its known members.
    let ghost before_g = forest(tree@);
    let ng = groups_len(groups);
    let mut k: usize = 0;
    while k < ng
        invariant
            i == instrument_entries(*instruments),
            m == midi_clip_entries(*midi_clips),
            w == waveform_entries(*waveforms),
            p == plugin_block_entries(*plugin_blocks),
            g == group_entries(*groups),
            ng == g.len(),
            k <= ng,
            forest(tree@) == before_g + group_roots(g, i, m, w, p).take(k as int),
        decreases ng - k,
    {
        if let Some((id, group)) = group_at(groups, k) {
            let children = members_of(&group.member_ids, instruments, midi_clips, waveforms, plugin_blocks);
            let node = LayerNode {
                entity_id: *id,
                kind: LayerNodeKind::Group,
                expanded: true,
                children,
            };
            let ghost before = tree@;
            tree.push(node);
            proof {
                lemma_children_view(node);
                lemma_forest_push(before, node);
                assert(node@ =~= group_roots(g, i, m, w, p)[k as int]);
                assert(forest(tree@) =~= before_g + group_roots(g, i, m, w, p).take(k + 1));
            }
        }
        k = k + 1;
    }
    assert(group_roots(g, i, m, w, p).take(ng as int) =~= group_roots(g, i, m, w, p));
    tree
}

// ---------------------------------------------------------------------------
// Keeping the tree in step with the entities
// ---------------------------------------------------------------------------

/// Whether `id` is a member of some group of `g`.
pub open spec fn grouped_in(g: Seq<(EntityId, GroupEntry)>, id: EntityId) -> bool {
    exists|k: int, j: int|
        0 <= k < g.len() && 0 <= j < g[k].1.member_ids@.len() && g[k].1.member_ids@[j] == id
}

/// Whether a root survives the sync: a non-group root that is a member of a
/// group is dropped (it belongs under its group), and so is a root whose
/// entity no longer exists. Text notes always stay.
pub open spec fn keeps_root(
    n: NodeView,
    i: Seq<(EntityId, InstrumentEntry)>,
    m: Seq<(EntityId, MidiClipEntry)>,
    w: Seq<(EntityId, WaveformEntry)>,
    p: Seq<(EntityId, PluginBlockEntry)>,
    g: Seq<(EntityId, GroupEntry)>,
) -> bool {
    &&& !(n.kind != LayerNodeKind::Group && grouped_in(g, n.entity_id))
    &&& match n.kind {
        LayerNodeKind::Instrument => has_key(i, n.entity_id),
        LayerNodeKind::Waveform => has_key(w, n.entity_id),
        LayerNodeKind::MidiClip => has_key(m, n.entity_id),
        LayerNodeKind::PluginBlock => has_key(p, n.entity_id),
        LayerNodeKind::TextNote => true,
        LayerNodeKind::Group => has_key(g, n.entity_id),
    }
}

/// The identifiers of the nodes of `s`.
pub open spec fn ids_of(s: Seq<NodeView>) -> Set<EntityId> {
    Set::new(|id: EntityId| has_id(s, id))
}

/// The children of `s` whose clip still exists.
pub open spec fn existing_clips(s: Seq<NodeView>, m: Seq<(EntityId, MidiClipEntry)>) -> Seq<NodeView>
    decreases s.len(),
{
    if s.len() == 0 {
        Seq::empty()
    } else {
        let rest = existing_clips(s.drop_last(), m);
        if has_key(m, s.last().entity_id) {
            rest.push(s.last())
        } else {
            rest
        }
    }
}

/// The children of `s` whose entity some map still holds.
pub open spec fn existing_members(
    s: Seq<NodeView>,
    i: Seq<(EntityId, InstrumentEntry)>,
    m: Seq<(EntityId, MidiClipEntry)>,
    w: Seq<(EntityId, WaveformEntry)>,
    p: Seq<(EntityId, PluginBlockEntry)>,
) -> Seq<NodeView>
    decreases s.len(),
{
    if s.len() == 0 {
        Seq::empty()
    } else {
        let rest = existing_members(s.drop_last(), i, m, w, p);
        if member_kind_of(i, m, w, p, s.last().entity_id) is Some {
            rest.push(s.last())
        } else {
            rest
        }
    }
}

/// The clips of `m` that instrument `inst` plays and that `existing` lacks,
/// in order, as collapsed leaves.
pub open spec fn added_clips(
    m: Seq<(EntityId, MidiClipEntry)>,
    inst: EntityId,
    existing: Set<EntityId>,
) -> Seq<NodeView>
    decreases m.len(),
{
    if m.len() == 0 {
        Seq::empty()
    } else {
        let rest = added_clips(m.drop_last(), inst, existing);
        if m.last().1.instrument_id == Some(inst) && !existing.contains(m.last().0) {
            rest.push(leaf(m.last().0, LayerNodeKind::MidiClip, false))
        } else {
            rest
        }
    }
}

/// The members `ids` that `existing` lacks and some map holds, in order, as
/// collapsed leaves of their kind (a member listed twice is added twice).
pub open spec fn added_members(
    ids: Seq<EntityId>,
    existing: Set<EntityId>,
    i: Seq<(EntityId, InstrumentEntry)>,
    m: Seq<(EntityId, MidiClipEntry)>,
    w: Seq<(EntityId, WaveformEntry)>,
    p: Seq<(EntityId, PluginBlockEntry)>,
) -> Seq<NodeView>
    decreases ids.len(),
{
    if ids.len() == 0 {
        Seq::empty()
    } else {
        let rest = added_members(ids.drop_last(), existing, i, m, w, p);
        if !existing.contains(ids.last()) && member_kind_of(i, m, w, p, ids.last()) is Some {
            rest.push(leaf(ids.last(), member_kind_of(i, m, w, p, ids.last())->0, false))
        } else {
            rest
        }
    }
}

/// A kept root with its children brought up to date: an instrument keeps the
/// clips that still exist and gains the clips it plays that it lacks; a group
/// keeps the members that still exist and gains the members it lacks. Other
/// roots are unchanged.
pub open spec fn fixed_root(
    n: NodeView,
    i: Seq<(EntityId, InstrumentEntry)>,
    m: Seq<(EntityId, MidiClipEntry)>,
    w: Seq<(EntityId, WaveformEntry)>,
    p: Seq<(EntityId, PluginBlockEntry)>,
    g: Seq<(EntityId, GroupEntry)>,
) -> NodeView {
    if n.kind == LayerNodeKind::Instrument {
        let kept = existing_clips(n.children, m);
        with_children(n, kept + added_clips(m, n.entity_id, ids_of(kept)))
    } else if n.kind == LayerNodeKind::Group && has_key(g, n.entity_id) {
        let kept = existing_members(n.children, i, m, w, p);
        with_children(
            n,
            kept + added_members(key_value(g, n.entity_id).member_ids@, ids_of(kept), i, m, w, p),
        )
    } else {
        n
    }
}

/// The kept roots of `s`, in order, brought up to date.
pub open spec fn kept_roots(
    s: Seq<NodeView>,
    i: Seq<(EntityId, InstrumentEntry)>,
    m: Seq<(EntityId, MidiClipEntry)>,
    w: Seq<(EntityId, WaveformEntry)>,
    p: Seq<(EntityId, PluginBlockEntry)>,
    g: Seq<(EntityId, GroupEntry)>,
) -> Seq<NodeView>
    decreases s.len(),
{
    if s.len() == 0 {
        Seq::empty()
    } else {
        let rest = kept_roots(s.drop_last(), i, m, w, p, g);
        if keeps_root(s.last(), i, m, w, p, g) {
            rest.push(fixed_root(s.last(), i, m, w, p, g))
        } else {
            rest
        }
    }
}

/// `seen` with the identifiers of `s` added.
pub open spec fn insert_ids(seen: Set<EntityId>, s: Seq<NodeView>) -> Set<EntityId>
    decreases s.len(),
{
    if s.len() == 0 {
        seen
    } else {
        insert_ids(seen, s.drop_last()).insert(s.last().entity_id)
    }
}

/// The identifiers that the kept roots `s` account for: each root, and the
/// children of instruments and of groups that still exist.
pub open spec fn seen_roots(s: Seq<NodeView>, g: Seq<(EntityId, GroupEntry)>) -> Set<EntityId>
    decreases s.len(),
{
    if s.len() == 0 {
        Set::empty()
    } else {
        let prev = seen_roots(s.drop_last(), g).insert(s.last().entity_id);
        if s.last().kind == LayerNodeKind::Instrument || (s.last().kind == LayerNodeKind::Group
            && has_key(g, s.last().entity_id)) {
            insert_ids(prev, s.last().children)
        } else {
            prev
        }
    }
}

/// The clips of `m` that instrument `inst` plays and that `seen` lacks, as
/// leaves, with `seen` grown by each.
pub open spec fn new_clips(m: Seq<(EntityId, MidiClipEntry)>, inst: EntityId, seen: Set<EntityId>) -> (
    Seq<NodeView>,
    Set<EntityId>,
)
    decreases m.len(),
{
    if m.len() == 0 {
        (Seq::empty(), seen)
    } else {
        let (c, s) = new_clips(m.drop_last(), inst, seen);
        let e = m.last();
        if e.1.instrument_id == Some(inst) && !s.contains(e.0) {
            (c.push(leaf(e.0, LayerNodeKind::MidiClip, false)), s.insert(e.0))
        } else {
            (c, s)
        }
    }
}

/// The tree and seen identifiers after adding, in order, each instrument of
/// `i` that is neither seen nor a member of a group, with the clips it plays
/// that are not yet seen.
pub open spec fn add_instruments(
    i: Seq<(EntityId, InstrumentEntry)>,
    m: Seq<(EntityId, MidiClipEntry)>,
    g: Seq<(EntityId, GroupEntry)>,
    st: (Seq<NodeView>, Set<EntityId>),
) -> (Seq<NodeView>, Set<EntityId>)
    decreases i.len(),
{
    if i.len() == 0 {
        st
    } else {
        let (t, s) = add_instruments(i.drop_last(), m, g, st);
        let id = i.last().0;
        if s.contains(id) || grouped_in(g, id) {
            (t, s)
        } else {
            let (c, s2) = new_clips(m, id, s);
            (
                t.push(
                    NodeView {
                        entity_id: id,
                        kind: LayerNodeKind::Instrument,
                        expanded: true,
                        children: c,
                    },
                ),
                s2.insert(id),
            )
        }
    }
}

/// The tree and seen identifiers after adding, in order, each waveform of
/// `w` that is neither seen nor a member of a group.
pub open spec fn add_waveforms(
    w: Seq<(EntityId, WaveformEntry)>,
    g: Seq<(EntityId, GroupEntry)>,
    st: (Seq<NodeView>, Set<EntityId>),
) -> (Seq<NodeView>, Set<EntityId>)
    decreases w.len(),
{
    if w.len() == 0 {
        st
    } else {
        let (t, s) = add_waveforms(w.drop_last(), g, st);
        let id = w.last().0;
        if !s.contains(id) && !grouped_in(g, id) {
            (t.push(leaf(id, LayerNodeKind::Waveform, false)), s.insert(id))
        } else {
            (t, s)
        }
    }
}

/// The members `ids` that are not yet seen and that some map holds, as
/// leaves of their kind, with `seen` grown by each.
pub open spec fn new_members(
    ids: Seq<EntityId>,
    i: Seq<(EntityId, InstrumentEntry)>,
    m: Seq<(EntityId, MidiClipEntry)>,
    w: Seq<(EntityId, WaveformEntry)>,
    p: Seq<(EntityId, PluginBlockEntry)>,
    seen: Set<EntityId>,
) -> (Seq<NodeView>, Set<EntityId>)
    decreases ids.len(),
{
    if ids.len() == 0 {
        (Seq::empty(), seen)
    } else {
        let (c, s) = new_members(ids.drop_last(), i, m, w, p, seen);
        let mid = ids.last();
        if !s.contains(mid) && member_kind_of(i, m, w, p, mid) is Some {
            (c.push(leaf(mid, member_kind_of(i, m, w, p, mid)->0, false)), s.insert(mid))
        } else {
            (c, s)
        }
    }
}

/// The tree and seen identifiers after adding, in order, each group of `g`
/// that is not yet seen, with its members that are not yet seen.
pub open spec fn add_groups(
    g: Seq<(EntityId, GroupEntry)>,
    i: Seq<(EntityId, InstrumentEntry)>,
    m: Seq<(EntityId, MidiClipEntry)>,
    w: Seq<(EntityId, WaveformEntry)>,
    p: Seq<(EntityId, PluginBlockEntry)>,
    st: (Seq<NodeView>, Set<EntityId>),
) -> (Seq<NodeView>, Set<EntityId>)
    decreases g.len(),
{
    if g.len() == 0 {
        st
    } else {
        let (t, s) = add_groups(g.drop_last(), i, m, w, p, st);
        let id = g.last().0;
        if s.contains(id) {
            (t, s)
        } else {
            let (c, s2) = new_members(g.last().1.member_ids@, i, m, w, p, s);
            (
                t.push(
                    NodeView { entity_id: id, kind: LayerNodeKind::Group, expanded: true, children: c },
                ),
                s2.insert(id),
            )
        }
    }
}

/// The tree after a sync: the kept roots brought up to date, in their order;
/// then the instruments, waveforms and groups that the tree does not yet
/// account for, as [`add_instruments`], [`add_waveforms`] and [`add_groups`]
/// say.
pub open spec fn synced(
    old: Seq<NodeView>,
    i: Seq<(EntityId, InstrumentEntry)>,
    m: Seq<(EntityId, MidiClipEntry)>,
    w: Seq<(EntityId, WaveformEntry)>,
    p: Seq<(EntityId, PluginBlockEntry)>,
    g: Seq<(EntityId, GroupEntry)>,
) -> Seq<NodeView> {
    let s2 = kept_roots(old, i, m, w, p, g);
    let st1 = add_instruments(i, m, g, (s2, seen_roots(s2, g)));
    let st2 = add_waveforms(w, g, st1);
    add_groups(g, i, m, w, p, st2).0
}

/// The identifiers of all members of all groups.
fn grouped_ids(groups: &Groups) -> (r: HashSet<EntityId>)
    ensures
        forall|id: EntityId| r@.contains(id) <==> grouped_in(group_entries(*groups), id),
{
    broadcast use vstd::std_specs::hash::group_hash_axioms;

    let ghost g = group_entries(*groups);
    let mut set: HashSet<EntityId> = HashSet::new();
    let n = groups_len(groups);
    let mut k: usize = 0;
    while k < n
        invariant
            g == group_entries(*groups),
            n == g.len(),
            k <= n,
            forall|id: EntityId|
                set@.contains(id) <==> exists|kk: int, jj: int|
                    0 <= kk < k && 0 <= jj < g[kk].1.member_ids@.len() && g[kk].1.member_ids@[jj]
                        == id,
        decreases n - k,
    {
        if let Some((_, group)) = group_at(groups, k) {
            let ghost members = group.member_ids@;
            assert(members == g[k as int].1.member_ids@);
            let mut j: usize = 0;
            while j < group.member_ids.len()
                invariant
                    g == group_entries(*groups),
                    k < g.len(),
                    members == g[k as int].1.member_ids@,
                    members == group.member_ids@,
                    j <= members.len(),
                    forall|id: EntityId|
                        set@.contains(id) <==> ((exists|kk: int, jj: int|
                            0 <= kk < k && 0 <= jj < g[kk].1.member_ids@.len()
                                && g[kk].1.member_ids@[jj] == id) || (exists|jj: int|
                            0 <= jj < j && members[jj] == id)),
                decreases members.len() - j,
            {
                let x = group.member_ids[j];
                set.insert(x);
                assert forall|id: EntityId|
                    set@.contains(id) <==> ((exists|kk: int, jj: int|
                        0 <= kk < k && 0 <= jj < g[kk].1.member_ids@.len()
                            && g[kk].1.member_ids@[jj] == id) || (exists|jj: int|
                        0 <= jj < j + 1 && members[jj] == id)) by {
                    if id == x {
                        assert(members[j as int] == id);
                    }
                    if exists|jj: int| 0 <= jj < j + 1 && members[jj] == id {
                        let jj = choose|jj: int| 0 <= jj < j + 1 && members[jj] == id;
                        if jj < j {
                        } else {
                            assert(id == x);
                        }
                    }
                }
                j = j + 1;
            }
            assert forall|id: EntityId|
                set@.contains(id) <==> exists|kk: int, jj: int|
                    0 <= kk < k + 1 && 0 <= jj < g[kk].1.member_ids@.len() && g[kk].1.member_ids@[jj]
                        == id by {
                if exists|jj: int| 0 <= jj < members.len() && members[jj] == id {
                    let jj = choose|jj: int| 0 <= jj < members.len() && members[jj] == id;
                    assert(0 <= k < k + 1 && g[k as int].1.member_ids@[jj] == id);
                }
                if exists|kk: int, jj: int|
                    0 <= kk < k + 1 && 0 <= jj < g[kk].1.member_ids@.len() && g[kk].1.member_ids@[jj]
                        == id {
                    let (kk, jj) = choose|kk: int, jj: int|
                        0 <= kk < k + 1 && 0 <= jj < g[kk].1.member_ids@.len()
                            && g[kk].1.member_ids@[jj] == id;
                    if kk == k {
                        assert(members[jj] == id);
                    }
                }
            }
        }
        k = k + 1;
    }
    set
}

/// Whether a root survives the sync, as [`keeps_root`] says.
fn keeps(
    node: &LayerNode,
    grouped: &HashSet<EntityId>,
    instruments: &Instruments,
    midi_clips: &MidiClips,
    waveforms: &Waveforms,
    plugin_blocks: &PluginBlocks,
    groups: &Groups,
) -> (r: bool)
    requires
        forall|id: EntityId| grouped@.contains(id) <==> grouped_in(group_entries(*groups), id),
    ensures
        r == keeps_root(
            node@,
            instrument_entries(*instruments),
            midi_clip_entries(*midi_clips),
            waveform_entries(*waveforms),
            plugin_block_entries(*plugin_blocks),
            group_entries(*groups),
        ),
{
    broadcast use vstd::std_specs::hash::group_hash_axioms;

    if node.kind != LayerNodeKind::Group && grouped.contains(&node.entity_id) {
        return false;
    }
    match node.kind {
        LayerNodeKind::Instrument => instrument_get(instruments, &node.entity_id).is_some(),
        LayerNodeKind::Waveform => waveform_get(waveforms, &node.entity_id).is_some(),
        LayerNodeKind::MidiClip => midi_clip_get(midi_clips, &node.entity_id).is_some(),
        LayerNodeKind::PluginBlock => plugin_block_get(plugin_blocks, &node.entity_id).is_some(),
        LayerNodeKind::TextNote => true,
        LayerNodeKind::Group => group_get(groups, &node.entity_id).is_some(),
    }
}

/// The children whose clip still exists, as [`existing_clips`] says.
fn keep_existing_clips(children: Vec<LayerNode>, midi_clips: &MidiClips) -> (r: Vec<LayerNode>)
    ensures
        forest(r@) == existing_clips(forest(children@), midi_clip_entries(*midi_clips)),
{
    let ghost orig = forest(children@);
    let ghost m = midi_clip_entries(*midi_clips);
    let mut src = children;
    let mut out: Vec<LayerNode> = Vec::new();
    let ghost mut c: int = 0;
    while src.len() > 0
        invariant
            m == midi_clip_entries(*midi_clips),
            0 <= c <= orig.len(),
            forest(src@) == orig.skip(c),
            forest(out@) == existing_clips(orig.take(c), m),
        decreases src@.len(),
    {
        let ghost before = out@;
        let ghost src_before = src@;
        assert(forest(src_before).len() == src_before.len());
        assert(c < orig.len());
        let n = src.remove(0);
        proof {
            assert(n@ == orig[c]) by {
                assert(forest(src_before)[0] == orig.skip(c)[0]);
            }
            let t = orig.take(c + 1);
            assert(t.drop_last() =~= orig.take(c));
            assert(t.last() == orig[c]);
            assert(forest(src@) =~= orig.skip(c + 1)) by {
                assert forall|j: int| 0 <= j < src@.len() implies forest(src@)[j] == orig.skip(
                    c + 1,
                )[j] by {
                    assert(src@[j] == src_before[j + 1]);
                    assert(forest(src_before)[j + 1] == orig.skip(c)[j + 1]);
                }
            }
        }
        if midi_clip_get(midi_clips, &n.entity_id).is_some() {
            out.push(n);
            proof {
                lemma_forest_push(before, n);
            }
        }
        proof {
            c = c + 1;
        }
    }
    assert(orig.take(c) =~= orig) by {
        assert(orig.skip(c).len() == 0);
    }
    out
}

/// The children whose entity some map still holds, as [`existing_members`]
/// says.
fn keep_existing_members(
    children: Vec<LayerNode>,
    instruments: &Instruments,
    midi_clips: &MidiClips,
    waveforms: &Waveforms,
    plugin_blocks: &PluginBlocks,
) -> (r: Vec<LayerNode>)
    ensures
        forest(r@) == existing_members(
            forest(children@),
            instrument_entries(*instruments),
            midi_clip_entries(*midi_clips),
            waveform_entries(*waveforms),
            plugin_block_entries(*plugin_blocks),
        ),
{
    let ghost orig = forest(children@);
    let ghost (i, m, w, p) = (
        instrument_entries(*instruments),
        midi_clip_entries(*midi_clips),
        waveform_entries(*waveforms),
        plugin_block_entries(*plugin_blocks),
    );
    let mut src = children;
    let mut out: Vec<LayerNode> = Vec::new();
    let ghost mut c: int = 0;
    while src.len() > 0
        invariant
            i == instrument_entries(*instruments),
            m == midi_clip_entries(*midi_clips),
            w == waveform_entries(*waveforms),
            p == plugin_block_entries(*plugin_blocks),
            0 <= c <= orig.len(),
            forest(src@) == orig.skip(c),
            forest(out@) == existing_members(orig.take(c), i, m, w, p),
        decreases src@.len(),
    {
        let ghost before = out@;
        let ghost src_before = src@;
        assert(forest(src_before).len() == src_before.len());
        assert(c < orig.len());
        let n = src.remove(0);
        proof {
            assert(n@ == orig[c]) by {
                assert(forest(src_before)[0] == orig.skip(c)[0]);
            }
            let t = orig.take(c + 1);
            assert(t.drop_last() =~= orig.take(c));
            assert(t.last() == orig[c]);
            assert(forest(src@) =~= orig.skip(c + 1)) by {
                assert forall|j: int| 0 <= j < src@.len() implies forest(src@)[j] == orig.skip(
                    c + 1,
                )[j] by {
                    assert(src@[j] == src_before[j + 1]);
                    assert(forest(src_before)[j + 1] == orig.skip(c)[j + 1]);
                }
            }
        }
        if member_kind(n.entity_id, instruments, midi_clips, waveforms, plugin_blocks).is_some() {
            out.push(n);
            proof {
                lemma_forest_push(before, n);
            }
        }
        proof {
            c = c + 1;
        }
    }
    assert(orig.take(c) =~= orig) by {
        assert(orig.skip(c).len() == 0);
    }
    out
}

/// The identifiers of the nodes of `v`.
fn id_set(v: &Vec<LayerNode>) -> (r: HashSet<EntityId>)
    ensures
        r@ == ids_of(forest(v@)),
{
    broadcast use vstd::std_specs::hash::group_hash_axioms;

    let ghost f = forest(v@);
    let mut set: HashSet<EntityId> = HashSet::new();
    let mut k: usize = 0;
    while k < v.len()
        invariant
            f == forest(v@),
            k <= v@.len(),
            forall|id: EntityId| set@.contains(id) <==> has_id(f.take(k as int), id),
        decreases v@.len() - k,
    {
        let x = v[k].entity_id;
        set.insert(x);
        assert forall|id: EntityId| set@.contains(id) <==> has_id(f.take(k + 1), id) by {
            let t = f.take(k + 1);
            if id == x {
                assert(t[k as int].entity_id == id);
            }
            if has_id(f.take(k as int), id) {
                let j = choose|j: int| 0 <= j < k && f.take(k as int)[j].entity_id == id;
                assert(t[j].entity_id == id);
            }
            if has_id(t, id) {
                let j = choose|j: int| 0 <= j < t.len() && t[j].entity_id == id;
                if j < k {
                    assert(f.take(k as int)[j].entity_id == id);
                }
            }
        }
        k = k + 1;
    }
    assert(f.take(k as int) =~= f);
    assert(set@ =~= ids_of(f));
    set
}

/// Appends the clips that `inst` plays and `existing` lacks, as
/// [`added_clips`] says.
fn push_added_clips(
    out: &mut Vec<LayerNode>,
    midi_clips: &MidiClips,
    inst: EntityId,
    existing: &HashSet<EntityId>,
)
    ensures
        forest(final(out)@) == forest(old(out)@) + added_clips(
            midi_clip_entries(*midi_clips),
            inst,
            existing@,
        ),
{
    broadcast use vstd::std_specs::hash::group_hash_axioms;

    let ghost m = midi_clip_entries(*midi_clips);
    let n = midi_clips_len(midi_clips);
    let mut k: usize = 0;
    while k < n
        invariant
            m == midi_clip_entries(*midi_clips),
            n == m.len(),
            k <= n,
            forest(out@) == forest(old(out)@) + added_clips(m.take(k as int), inst, existing@),
        decreases n - k,
    {
        let ghost t = m.take(k + 1);
        assert(t.drop_last() =~= m.take(k as int));
        if let Some((id, mc)) = midi_clip_at(midi_clips, k) {
            assert(t.last() == m[k as int]);
            if mc.instrument_id == Some(inst) && !existing.contains(id) {
                let ghost before = out@;
                let node = new_leaf(*id, LayerNodeKind::MidiClip);
                out.push(node);
                proof {
                    lemma_forest_push(before, node);
                    assert(forest(out@) =~= forest(old(out)@) + added_clips(t, inst, existing@));
                }
            }
        }
        k = k + 1;
    }
    assert(m.take(n as int) =~= m);
}

/// Appends the members that `existing` lacks and some map holds, as
/// [`added_members`] says.
fn push_added_members(
    out: &mut Vec<LayerNode>,
    member_ids: &Vec<EntityId>,
    existing: &HashSet<EntityId>,
    instruments: &Instruments,
    midi_clips: &MidiClips,
    waveforms: &Waveforms,
    plugin_blocks: &PluginBlocks,
)
    ensures
        forest(final(out)@) == forest(old(out)@) + added_members(
            member_ids@,
            existing@,
            instrument_entries(*instruments),
            midi_clip_entries(*midi_clips),
            waveform_entries(*waveforms),
            plugin_block_entries(*plugin_blocks),
        ),
{
    broadcast use vstd::std_specs::hash::group_hash_axioms;

    let ghost (i, m, w, p) = (
        instrument_entries(*instruments),
        midi_clip_entries(*midi_clips),
        waveform_entries(*waveforms),
        plugin_block_entries(*plugin_blocks),
    );
    let mut k: usize = 0;
    while k < member_ids.len()
        invariant
            i == instrument_entries(*instruments),
            m == midi_clip_entries(*midi_clips),
            w == waveform_entries(*waveforms),
            p == plugin_block_entries(*plugin_blocks),
            k <= member_ids@.len(),
            forest(out@) == forest(old(out)@) + added_members(
                member_ids@.take(k as int),
                existing@,
                i,
                m,
                w,
                p,
            ),
        decreases member_ids@.len() - k,
    {
        let ghost t = member_ids@.take(k + 1);
        assert(t.drop_last() =~= member_ids@.take(k as int));
        let mid = member_ids[k];
        if !existing.contains(&mid) {
            if let Some(kind) = member_kind(mid, instruments, midi_clips, waveforms, plugin_blocks) {
                let ghost before = out@;
                let node = new_leaf(mid, kind);
                out.push(node);
                proof {
                    lemma_forest_push(before, node);
                    assert(forest(out@) =~= forest(old(out)@) + added_members(t, existing@, i, m, w, p));
                }
            }
        }
        k = k + 1;
    }
    assert(member_ids@.take(k as int) =~= member_ids@);
}

/// A kept root brought up to date, as [`fixed_root`] says.
fn fix_root(
    node: LayerNode,
    instruments: &Instruments,
    midi_clips: &MidiClips,
    waveforms: &Waveforms,
    plugin_blocks: &PluginBlocks,
    groups: &Groups,
) -> (r: LayerNode)
    ensures
        r@ == fixed_root(
            node@,
            instrument_entries(*instruments),
            midi_clip_entries(*midi_clips),
            waveform_entries(*waveforms),
            plugin_block_entries(*plugin_blocks),
            group_entries(*groups),
        ),
{
    let ghost (i, m, w, p, g) = (
        instrument_entries(*instruments),
        midi_clip_entries(*midi_clips),
        waveform_entries(*waveforms),
        plugin_block_entries(*plugin_blocks),
        group_entries(*groups),
    );
    proof {
        lemma_children_view(node);
    }
    if node.kind == LayerNodeKind::Instrument {
        let LayerNode { entity_id, kind, expanded, children } = node;
        let mut kept = keep_existing_clips(children, midi_clips);
        let existing = id_set(&kept);
        let ghost kept_view = forest(kept@);
        push_added_clips(&mut kept, midi_clips, entity_id, &existing);
        let r = LayerNode { entity_id, kind, expanded, children: kept };
        proof {
            lemma_children_view(r);
            assert(r@ =~= with_children(node@, kept_view + added_clips(m, entity_id, ids_of(kept_view))));
        }
        r
    } else if node.kind == LayerNodeKind::Group {
        match group_get(groups, &node.entity_id) {
            Some(group) => {
                proof {
                    let k = choose|k: int| 0 <= k < g.len() && g[k].0 == node.entity_id;
                    let i0 = choose|i0: int| sole_key_at(g, node.entity_id, i0) && g[i0].1 == *group;
                    assert(k == i0);
                    assert(key_value(g, node.entity_id) == *group);
                }
                let LayerNode { entity_id, kind, expanded, children } = node;
                let mut kept = keep_existing_members(
                    children,
                    instruments,
                    midi_clips,
                    waveforms,
                    plugin_blocks,
                );
                let existing = id_set(&kept);
                let ghost kept_view = forest(kept@);
                push_added_members(
                    &mut kept,
                    &group.member_ids,
                    &existing,
                    instruments,
                    midi_clips,
                    waveforms,
                    plugin_blocks,
                );
                let r = LayerNode { entity_id, kind, expanded, children: kept };
                proof {
                    lemma_children_view(r);
                    assert(r@ =~= with_children(
                        node@,
                        kept_view + added_members(
                            group.member_ids@,
                            ids_of(kept_view),
                            i,
                            m,
                            w,
                            p,
                        ),
                    ));
                }
                r
            },
            None => node,
        }
    } else {
        node
    }
}

/// Adds the identifiers of `children` to `seen`.
fn insert_child_ids(seen: &mut HashSet<EntityId>, children: &Vec<LayerNode>)
    ensures
        final(seen)@ == insert_ids(old(seen)@, forest(children@)),
{
    broadcast use vstd::std_specs::hash::group_hash_axioms;

    let ghost f = forest(children@);
    let mut k: usize = 0;
    while k < children.len()
        invariant
            f == forest(children@),
            k <= children@.len(),
            seen@ == insert_ids(old(seen)@, f.take(k as int)),
        decreases children@.len() - k,
    {
        let ghost t = f.take(k + 1);
        assert(t.drop_last() =~= f.take(k as int));
        seen.insert(children[k].entity_id);
        k = k + 1;
    }
    assert(f.take(k as int) =~= f);
}

/// The clips that `inst` plays and `seen` lacks, as [`new_clips`] says.
fn take_new_clips(midi_clips: &MidiClips, inst: EntityId, seen: &mut HashSet<EntityId>) -> (r: Vec<
    LayerNode,
>)
    ensures
        (forest(r@), final(seen)@) == new_clips(midi_clip_entries(*midi_clips), inst, old(seen)@),
{
    broadcast use vstd::std_specs::hash::group_hash_axioms;

    let ghost m = midi_clip_entries(*midi_clips);
    let n = midi_clips_len(midi_clips);
    let mut out: Vec<LayerNode> = Vec::new();
    let mut k: usize = 0;
    while k < n
        invariant
            m == midi_clip_entries(*midi_clips),
            n == m.len(),
            k <= n,
            (forest(out@), seen@) == new_clips(m.take(k as int), inst, old(seen)@),
        decreases n - k,
    {
        let ghost t = m.take(k + 1);
        assert(t.drop_last() =~= m.take(k as int));
        if let Some((id, mc)) = midi_clip_at(midi_clips, k) {
            assert(t.last() == m[k as int]);
            if mc.instrument_id == Some(inst) && !seen.contains(id) {
                let ghost before = out@;
                let node = new_leaf(*id, LayerNodeKind::MidiClip);
                out.push(node);
                seen.insert(*id);
                proof {
                    lemma_forest_push(before, node);
                }
            }
        }
        k = k + 1;
    }
    assert(m.take(n as int) =~= m);
    out
}

/// The members that `seen` lacks and some map holds, as [`new_members`] says.
fn take_new_members(
    member_ids: &Vec<EntityId>,
    instruments: &Instruments,
    midi_clips: &MidiClips,
    waveforms: &Waveforms,
    plugin_blocks: &PluginBlocks,
    seen: &mut HashSet<EntityId>,
) -> (r: Vec<LayerNode>)
    ensures
        (forest(r@), final(seen)@) == new_members(
            member_ids@,
            instrument_entries(*instruments),
            midi_clip_entries(*midi_clips),
            waveform_entries(*waveforms),
            plugin_block_entries(*plugin_blocks),
            old(seen)@,
        ),
{
    broadcast use vstd::std_specs::hash::group_hash_axioms;

    let ghost (i, m, w, p) = (
        instrument_entries(*instruments),
        midi_clip_entries(*midi_clips),
        waveform_entries(*waveforms),
        plugin_block_entries(*plugin_blocks),
    );
    let mut out: Vec<LayerNode> = Vec::new();
    let mut k: usize = 0;
    while k < member_ids.len()
        invariant
            i == instrument_entries(*instruments),
            m == midi_clip_entries(*midi_clips),
            w == waveform_entries(*waveforms),
            p == plugin_block_entries(*plugin_blocks),
            k <= member_ids@.len(),
            (forest(out@), seen@) == new_members(
                member_ids@.take(k as int),
                i,
                m,
                w,
                p,
                old(seen)@,
            ),
        decreases member_ids@.len() - k,
    {
        let ghost t = member_ids@.take(k + 1);
        assert(t.drop_last() =~= member_ids@.take(k as int));
        let mid = member_ids[k];
        if !seen.contains(&mid) {
            if let Some(kind) = member_kind(mid, instruments, midi_clips, waveforms, plugin_blocks) {
                let ghost before = out@;
                let node = new_leaf(mid, kind);
                out.push(node);
                seen.insert(mid);
                proof {
                    lemma_forest_push(before, node);
                }
            }
        }
        k = k + 1;
    }
    assert(member_ids@.take(k as int) =~= member_ids@);
    out
}

/// Brings the tree in step with the entity maps: drops roots whose entity is
/// gone or that now belong to a group, updates the children of instruments
/// and groups, and adds the instruments, waveforms and groups that the tree
/// does not account for yet. Existing order and expanded state are kept.
pub fn sync_tree(
    tree: &mut Vec<LayerNode>,
    instruments: &Instruments,
    midi_clips: &MidiClips,
    waveforms: &Waveforms,
    plugin_blocks: &PluginBlocks,
    groups: &Groups,
)
    ensures
        forest(final(tree)@) == synced(
            forest(old(tree)@),
            instrument_entries(*instruments),
            midi_clip_entries(*midi_clips),
            waveform_entries(*waveforms),
            plugin_block_entries(*plugin_blocks),
            group_entries(*groups),
        ),
{
    broadcast use vstd::std_specs::hash::group_hash_axioms;

    let ghost (i, m, w, p, g) = (
        instrument_entries(*instruments),
        midi_clip_entries(*midi_clips),
        waveform_entries(*waveforms),
        plugin_block_entries(*plugin_blocks),
        group_entries(*groups),
    );
    let ghost orig = forest(tree@);
    let grouped = grouped_ids(groups);
    let mut src: Vec<LayerNode> = Vec::new();
    std::mem::swap(&mut src, tree);
    let mut seen: HashSet<EntityId> = HashSet::new();
    // Keep the roots that survive, brought up to date.
    let ghost mut c: int = 0;
    while src.len() > 0
        invariant
            i == instrument_entries(*instruments),
            m == midi_clip_entries(*midi_clips),
            w == waveform_entries(*waveforms),
            p == plugin_block_entries(*plugin_blocks),
            g == group_entries(*groups),
            forall|id: EntityId| grouped@.contains(id) <==> grouped_in(g, id),
            0 <= c <= orig.len(),
            forest(src@) == orig.skip(c),
            forest(tree@) == kept_roots(orig.take(c), i, m, w, p, g),
            seen@ == seen_roots(forest(tree@), g),
        decreases src@.len(),
    {
        let ghost src_before = src@;
        assert(forest(src_before).len() == src_before.len());
        assert(c < orig.len());
        let n = src.remove(0);
        proof {
            assert(n@ == orig[c]) by {
                assert(forest(src_before)[0] == orig.skip(c)[0]);
            }
            let t = orig.take(c + 1);
            assert(t.drop_last() =~= orig.take(c));
            assert(t.last() == orig[c]);
            assert(forest(src@) =~= orig.skip(c + 1)) by {
                assert forall|j: int| 0 <= j < src@.len() implies forest(src@)[j] == orig.skip(
                    c + 1,
                )[j] by {
                    assert(src@[j] == src_before[j + 1]);
                    assert(forest(src_before)[j + 1] == orig.skip(c)[j + 1]);
                }
            }
        }
        if keeps(&n, &grouped, instruments, midi_clips, waveforms, plugin_blocks, groups) {
            let f = fix_root(n, instruments, midi_clips, waveforms, plugin_blocks, groups);
            let ghost before = tree@;
            seen.insert(f.entity_id);
            if f.kind == LayerNodeKind::Instrument || (f.kind == LayerNodeKind::Group && group_get(
                groups,
                &f.entity_id,
            ).is_some()) {
                insert_child_ids(&mut seen, &f.children);
            }
            proof {
                lemma_children_view(f);
            }
            tree.push(f);
            proof {
                lemma_forest_push(before, f);
                assert(forest(tree@).drop_last() =~= forest(before));
            }
        }
        proof {
            c = c + 1;
        }
    }
    assert(orig.take(c) =~= orig) by {
        assert(orig.skip(c).len() == 0);
    }
    let ghost st0 = (forest(tree@), seen@);
    // Instruments not yet accounted for, with their clips.
    let ni = instruments_len(instruments);
    let mut k: usize = 0;
    while k < ni
        invariant
            i == instrument_entries(*instruments),
            m == midi_clip_entries(*midi_clips),
            ni == i.len(),
            k <= ni,
            g == group_entries(*groups),
            forall|id: EntityId| grouped@.contains(id) <==> grouped_in(g, id),
            (forest(tree@), seen@) == add_instruments(i.take(k as int), m, g, st0),
        decreases ni - k,
    {
        let ghost t = i.take(k + 1);
        assert(t.drop_last() =~= i.take(k as int));
        if let Some((id, _)) = instrument_at(instruments, k) {
            let id = *id;
            assert(t.last().0 == id);
            if !seen.contains(&id) && !grouped.contains(&id) {
                let children = take_new_clips(midi_clips, id, &mut seen);
                let node = LayerNode {
                    entity_id: id,
                    kind: LayerNodeKind::Instrument,
                    expanded: true,
                    children,
                };
                let ghost before = tree@;
                tree.push(node);
                seen.insert(id);
                proof {
                    lemma_children_view(node);
                    lemma_forest_push(before, node);
                }
            }
        }
        k = k + 1;
    }
    assert(i.take(ni as int) =~= i);
    let ghost st1 = (forest(tree@), seen@);
    // Waveforms not yet accounted for and in no group.
    let nw = waveforms_len(waveforms);
    let mut k: usize = 0;
    while k < nw
        invariant
            w == waveform_entries(*waveforms),
            g == group_entries(*groups),
            forall|id: EntityId| grouped@.contains(id) <==> grouped_in(g, id),
            nw == w.len(),
            k <= nw,
            (forest(tree@), seen@) == add_waveforms(w.take(k as int), g, st1),
        decreases nw - k,
    {
        let ghost t = w.take(k + 1);
        assert(t.drop_last() =~= w.take(k as int));
        if let Some((id, _)) = waveform_at(waveforms, k) {
            let id = *id;
            assert(t.last().0 == id);
            if !seen.contains(&id) && !grouped.contains(&id) {
                let node = new_leaf(id, LayerNodeKind::Waveform);
                let ghost before = tree@;
                tree.push(node);
                seen.insert(id);
                proof {
                    lemma_forest_push(before, node);
                }
            }
        }
        k = k + 1;
    }
    assert(w.take(nw as int) =~= w);
    let ghost st2 = (forest(tree@), seen@);
    // Groups not yet accounted for, with their members.
    let ng = groups_len(groups);
    let mut k: usize = 0;
    while k < ng
        invariant
            i == instrument_entries(*instruments),
            m == midi_clip_entries(*midi_clips),
            w == waveform_entries(*waveforms),
            p == plugin_block_entries(*plugin_blocks),
            g == group_entries(*groups),
            ng == g.len(),
            k <= ng,
            (forest(tree@), seen@) == add_groups(g.take(k as int), i, m, w, p, st2),
        decreases ng - k,
    {
        let ghost t = g.take(k + 1);
        assert(t.drop_last() =~= g.take(k as int));
        if let Some((id, group)) = group_at(groups, k) {
            let id = *id;
            assert(t.last().0 == id);
            assert(t.last().1 == *group);
            if !seen.contains(&id) {
                let children = take_new_members(
                    &group.member_ids,
                    instruments,
                    midi_clips,
                    waveforms,
                    plugin_blocks,
                    &mut seen,
                );
                let node = LayerNode { entity_id: id, kind: LayerNodeKind::Group, expanded: true, children };
                let ghost before = tree@;
                tree.push(node);
                seen.insert(id);
                proof {
                    lemma_children_view(node);
                    lemma_forest_push(before, node);
                }
            }
        }
        k = k + 1;
    }
    assert(g.take(ng as int) =~= g);
}

// ---------------------------------------------------------------------------
// Laws of the sync
// ---------------------------------------------------------------------------

/// Identifier `id` occurs in `s` as a root or as a child of a root.
pub open spec fn present(s: Seq<NodeView>, id: EntityId) -> bool {
    has_id(s, id) || exists|k: int| 0 <= k < s.len() && has_id(#[trigger] s[k].children, id)
}

/// Every identifier in `st.1` occurs in the tree `st.0`.
pub open spec fn accounted(t: Seq<NodeView>, seen: Set<EntityId>) -> bool {
    forall|x: EntityId| seen.contains(x) ==> present(t, x)
}

proof fn lemma_present_push(t: Seq<NodeView>, n: NodeView, x: EntityId)
    requires
        present(t, x),
    ensures
        present(t.push(n), x),
{
    let u = t.push(n);
    if has_id(t, x) {
        let j = choose|j: int| 0 <= j < t.len() && t[j].entity_id == x;
        assert(u[j].entity_id == x);
    } else {
        let k = choose|k: int| 0 <= k < t.len() && has_id(#[trigger] t[k].children, x);
        assert(u[k] == t[k]);
        assert(has_id(u[k].children, x));
    }
}

proof fn lemma_present_pushed(t: Seq<NodeView>, n: NodeView, x: EntityId)
    requires
        n.entity_id == x || has_id(n.children, x),
    ensures
        present(t.push(n), x),
{
    let u = t.push(n);
    assert(u[t.len() as int] == n);
    if n.entity_id == x {
    } else {
        assert(has_id(u[t.len() as int].children, x));
    }
}

proof fn lemma_insert_ids(seen: Set<EntityId>, s: Seq<NodeView>, x: EntityId)
    ensures
        insert_ids(seen, s).contains(x) <==> (seen.contains(x) || has_id(s, x)),
    decreases s.len(),
{
    if s.len() > 0 {
        lemma_insert_ids(seen, s.drop_last(), x);
        if has_id(s.drop_last(), x) {
            let j = choose|j: int| 0 <= j < s.drop_last().len() && s.drop_last()[j].entity_id == x;
            assert(s[j].entity_id == x);
        }
        if has_id(s, x) && s.last().entity_id != x {
            let j = choose|j: int| 0 <= j < s.len() && s[j].entity_id == x;
            assert(s.drop_last()[j].entity_id == x);
        }
    }
}

proof fn lemma_seen_roots(s: Seq<NodeView>, g: Seq<(EntityId, GroupEntry)>)
    ensures
        accounted(s, seen_roots(s, g)),
    decreases s.len(),
{
    if s.len() > 0 {
        let d = s.drop_last();
        let n = s.last();
        lemma_seen_roots(d, g);
        assert(s =~= d.push(n));
        assert forall|x: EntityId| seen_roots(s, g).contains(x) implies present(s, x) by {
            let prev = seen_roots(d, g).insert(n.entity_id);
            lemma_insert_ids(prev, n.children, x);
            if seen_roots(d, g).contains(x) {
                assert(accounted(d, seen_roots(d, g)));
                assert(present(d, x));
                lemma_present_push(d, n, x);
            } else {
                lemma_present_pushed(d, n, x);
            }
        }
    }
}

proof fn lemma_new_clips(m: Seq<(EntityId, MidiClipEntry)>, inst: EntityId, seen: Set<EntityId>, x: EntityId)
    ensures
        seen.contains(x) ==> new_clips(m, inst, seen).1.contains(x),
        new_clips(m, inst, seen).1.contains(x) ==> seen.contains(x) || has_id(
            new_clips(m, inst, seen).0,
            x,
        ),
    decreases m.len(),
{
    if m.len() > 0 {
        lemma_new_clips(m.drop_last(), inst, seen, x);
        let (c, s) = new_clips(m.drop_last(), inst, seen);
        let e = m.last();
        if e.1.instrument_id == Some(inst) && !s.contains(e.0) {
            let c2 = c.push(leaf(e.0, LayerNodeKind::MidiClip, false));
            if has_id(c, x) {
                let j = choose|j: int| 0 <= j < c.len() && c[j].entity_id == x;
                assert(c2[j].entity_id == x);
            }
            if x == e.0 {
                assert(c2[c.len() as int].entity_id == x);
            }
        }
    }
}

proof fn lemma_new_members(
    ids: Seq<EntityId>,
    i: Seq<(EntityId, InstrumentEntry)>,
    m: Seq<(EntityId, MidiClipEntry)>,
    w: Seq<(EntityId, WaveformEntry)>,
    p: Seq<(EntityId, PluginBlockEntry)>,
    seen: Set<EntityId>,
    x: EntityId,
)
    ensures
        seen.contains(x) ==> new_members(ids, i, m, w, p, seen).1.contains(x),
        new_members(ids, i, m, w, p, seen).1.contains(x) ==> seen.contains(x) || has_id(
            new_members(ids, i, m, w, p, seen).0,
            x,
        ),
    decreases ids.len(),
{
    if ids.len() > 0 {
        lemma_new_members(ids.drop_last(), i, m, w, p, seen, x);
        let (c, s) = new_members(ids.drop_last(), i, m, w, p, seen);
        let mid = ids.last();
        if !s.contains(mid) && member_kind_of(i, m, w, p, mid) is Some {
            let c2 = c.push(leaf(mid, member_kind_of(i, m, w, p, mid)->0, false));
            if has_id(c, x) {
                let j = choose|j: int| 0 <= j < c.len() && c[j].entity_id == x;
                assert(c2[j].entity_id == x);
            }
            if x == mid {
                assert(c2[c.len() as int].entity_id == x);
            }
        }
    }
}

/// Roots of the right kind for their maps: each root that is not a text note
/// names an entity that the map of its kind holds.
pub open spec fn roots_exist(
    s: Seq<NodeView>,
    i: Seq<(EntityId, InstrumentEntry)>,
    m: Seq<(EntityId, MidiClipEntry)>,
    w: Seq<(EntityId, WaveformEntry)>,
    p: Seq<(EntityId, PluginBlockEntry)>,
    g: Seq<(EntityId, GroupEntry)>,
) -> bool {
    forall|k: int|
        0 <= k < s.len() ==> match (#[trigger] s[k]).kind {
            LayerNodeKind::Instrument => has_key(i, s[k].entity_id),
            LayerNodeKind::Waveform => has_key(w, s[k].entity_id),
            LayerNodeKind::MidiClip => has_key(m, s[k].entity_id),
            LayerNodeKind::PluginBlock => has_key(p, s[k].entity_id),
            LayerNodeKind::TextNote => true,
            LayerNodeKind::Group => has_key(g, s[k].entity_id),
        }
}

proof fn lemma_kept_roots(
    s: Seq<NodeView>,
    i: Seq<(EntityId, InstrumentEntry)>,
    m: Seq<(EntityId, MidiClipEntry)>,
    w: Seq<(EntityId, WaveformEntry)>,
    p: Seq<(EntityId, PluginBlockEntry)>,
    g: Seq<(EntityId, GroupEntry)>,
)
    ensures
        roots_exist(kept_roots(s, i, m, w, p, g), i, m, w, p, g),
    decreases s.len(),
{
    if s.len() > 0 {
        lemma_kept_roots(s.drop_last(), i, m, w, p, g);
    }
}

proof fn lemma_add_instruments(
    i: Seq<(EntityId, InstrumentEntry)>,
    iall: Seq<(EntityId, InstrumentEntry)>,
    m: Seq<(EntityId, MidiClipEntry)>,
    w: Seq<(EntityId, WaveformEntry)>,
    p: Seq<(EntityId, PluginBlockEntry)>,
    g: Seq<(EntityId, GroupEntry)>,
    st: (Seq<NodeView>, Set<EntityId>),
)
    requires
        accounted(st.0, st.1),
        roots_exist(st.0, iall, m, w, p, g),
        forall|k: int| 0 <= k < i.len() ==> has_key(iall, #[trigger] i[k].0),
    ensures
        accounted(add_instruments(i, m, g, st).0, add_instruments(i, m, g, st).1),
        roots_exist(add_instruments(i, m, g, st).0, iall, m, w, p, g),
        forall|x: EntityId| st.1.contains(x) ==> add_instruments(i, m, g, st).1.contains(x),
        forall|k: int|
            0 <= k < i.len() && !grouped_in(g, i[k].0) ==> add_instruments(i, m, g, st).1.contains(
                #[trigger] i[k].0,
            ),
    decreases i.len(),
{
    if i.len() > 0 {
        let d = i.drop_last();
        assert forall|k: int| 0 <= k < d.len() implies has_key(iall, #[trigger] d[k].0) by {
            assert(d[k] == i[k]);
        }
        lemma_add_instruments(d, iall, m, w, p, g, st);
        let (t, s) = add_instruments(d, m, g, st);
        let id = i.last().0;
        assert forall|k: int| 0 <= k < d.len() && !grouped_in(g, i[k].0) implies s.contains(
            #[trigger] i[k].0,
        ) by {
            assert(d[k] == i[k]);
        }
        if !s.contains(id) && !grouped_in(g, id) {
            let (c, s2) = new_clips(m, id, s);
            let n = NodeView {
                entity_id: id,
                kind: LayerNodeKind::Instrument,
                expanded: true,
                children: c,
            };
            assert forall|x: EntityId| s2.insert(id).contains(x) implies present(t.push(n), x) by {
                lemma_new_clips(m, id, s, x);
                if x == id || has_id(c, x) {
                    lemma_present_pushed(t, n, x);
                } else {
                    lemma_present_push(t, n, x);
                }
            }
            assert forall|x: EntityId| s.contains(x) implies s2.insert(id).contains(x) by {
                lemma_new_clips(m, id, s, x);
            }
            assert(has_key(iall, id)) by {
                assert(i[i.len() - 1].0 == id);
            }
            assert forall|k: int| 0 <= k < t.len() + 1 implies match (#[trigger] t.push(n)[k]).kind {
                LayerNodeKind::Instrument => has_key(iall, t.push(n)[k].entity_id),
                LayerNodeKind::Waveform => has_key(w, t.push(n)[k].entity_id),
                LayerNodeKind::MidiClip => has_key(m, t.push(n)[k].entity_id),
                LayerNodeKind::PluginBlock => has_key(p, t.push(n)[k].entity_id),
                LayerNodeKind::TextNote => true,
                LayerNodeKind::Group => has_key(g, t.push(n)[k].entity_id),
            } by {
                if k < t.len() {
                    assert(t.push(n)[k] == t[k]);
                }
            }
        }
    }
}

proof fn lemma_add_waveforms(
    i: Seq<(EntityId, InstrumentEntry)>,
    m: Seq<(EntityId, MidiClipEntry)>,
    w: Seq<(EntityId, WaveformEntry)>,
    wall: Seq<(EntityId, WaveformEntry)>,
    p: Seq<(EntityId, PluginBlockEntry)>,
    g: Seq<(EntityId, GroupEntry)>,
    st: (Seq<NodeView>, Set<EntityId>),
)
    requires
        accounted(st.0, st.1),
        roots_exist(st.0, i, m, wall, p, g),
        forall|k: int| 0 <= k < w.len() ==> has_key(wall, #[trigger] w[k].0),
    ensures
        accounted(add_waveforms(w, g, st).0, add_waveforms(w, g, st).1),
        roots_exist(add_waveforms(w, g, st).0, i, m, wall, p, g),
        forall|x: EntityId| st.1.contains(x) ==> add_waveforms(w, g, st).1.contains(x),
        forall|k: int|
            0 <= k < w.len() && !grouped_in(g, w[k].0) ==> add_waveforms(w, g, st).1.contains(
                #[trigger] w[k].0,
            ),
    decreases w.len(),
{
    if w.len() > 0 {
        let d = w.drop_last();
        assert forall|k: int| 0 <= k < d.len() implies has_key(wall, #[trigger] d[k].0) by {
            assert(d[k] == w[k]);
        }
        lemma_add_waveforms(i, m, d, wall, p, g, st);
        let (t, s) = add_waveforms(d, g, st);
        let id = w.last().0;
        assert forall|k: int| 0 <= k < d.len() && !grouped_in(g, w[k].0) implies s.contains(
            #[trigger] w[k].0,
        ) by {
            assert(d[k] == w[k]);
        }
        if !s.contains(id) && !grouped_in(g, id) {
            let n = leaf(id, LayerNodeKind::Waveform, false);
            assert forall|x: EntityId| s.insert(id).contains(x) implies present(t.push(n), x) by {
                if x == id {
                    lemma_present_pushed(t, n, x);
                } else {
                    lemma_present_push(t, n, x);
                }
            }
            assert(has_key(wall, id)) by {
                assert(w[w.len() - 1].0 == id);
            }
            assert forall|k: int| 0 <= k < t.len() + 1 implies match (#[trigger] t.push(n)[k]).kind {
                LayerNodeKind::Instrument => has_key(i, t.push(n)[k].entity_id),
                LayerNodeKind::Waveform => has_key(wall, t.push(n)[k].entity_id),
                LayerNodeKind::MidiClip => has_key(m, t.push(n)[k].entity_id),
                LayerNodeKind::PluginBlock => has_key(p, t.push(n)[k].entity_id),
                LayerNodeKind::TextNote => true,
                LayerNodeKind::Group => has_key(g, t.push(n)[k].entity_id),
            } by {
                if k < t.len() {
                    assert(t.push(n)[k] == t[k]);
                }
            }
        }
    }
}

proof fn lemma_add_groups(
    i: Seq<(EntityId, InstrumentEntry)>,
    m: Seq<(EntityId, MidiClipEntry)>,
    w: Seq<(EntityId, WaveformEntry)>,
    p: Seq<(EntityId, PluginBlockEntry)>,
    g: Seq<(EntityId, GroupEntry)>,
    gall: Seq<(EntityId, GroupEntry)>,
    st: (Seq<NodeView>, Set<EntityId>),
)
    requires
        accounted(st.0, st.1),
        roots_exist(st.0, i, m, w, p, gall),
        forall|k: int| 0 <= k < g.len() ==> has_key(gall, #[trigger] g[k].0),
    ensures
        accounted(add_groups(g, i, m, w, p, st).0, add_groups(g, i, m, w, p, st).1),
        roots_exist(add_groups(g, i, m, w, p, st).0, i, m, w, p, gall),
        forall|x: EntityId| st.1.contains(x) ==> add_groups(g, i, m, w, p, st).1.contains(x),
        forall|k: int| 0 <= k < g.len() ==> add_groups(g, i, m, w, p, st).1.contains(#[trigger] g[k].0),
    decreases g.len(),
{
    if g.len() > 0 {
        let d = g.drop_last();
        assert forall|k: int| 0 <= k < d.len() implies has_key(gall, #[trigger] d[k].0) by {
            assert(d[k] == g[k]);
        }
        lemma_add_groups(i, m, w, p, d, gall, st);
        let (t, s) = add_groups(d, i, m, w, p, st);
        let id = g.last().0;
        assert forall|k: int| 0 <= k < d.len() implies s.contains(#[trigger] g[k].0) by {
            assert(d[k] == g[k]);
        }
        if !s.contains(id) {
            let (c, s2) = new_members(g.last().1.member_ids@, i, m, w, p, s);
            let n = NodeView { entity_id: id, kind: LayerNodeKind::Group, expanded: true, children: c };
            assert forall|x: EntityId| s2.insert(id).contains(x) implies present(t.push(n), x) by {
                lemma_new_members(g.last().1.member_ids@, i, m, w, p, s, x);
                if x == id || has_id(c, x) {
                    lemma_present_pushed(t, n, x);
                } else {
                    lemma_present_push(t, n, x);
                }
            }
            assert forall|x: EntityId| s.contains(x) implies s2.insert(id).contains(x) by {
                lemma_new_members(g.last().1.member_ids@, i, m, w, p, s, x);
            }
            assert(has_key(gall, id)) by {
                assert(g[g.len() - 1].0 == id);
            }
            assert forall|k: int| 0 <= k < t.len() + 1 implies match (#[trigger] t.push(n)[k]).kind {
                LayerNodeKind::Instrument => has_key(i, t.push(n)[k].entity_id),
                LayerNodeKind::Waveform => has_key(w, t.push(n)[k].entity_id),
                LayerNodeKind::MidiClip => has_key(m, t.push(n)[k].entity_id),
                LayerNodeKind::PluginBlock => has_key(p, t.push(n)[k].entity_id),
                LayerNodeKind::TextNote => true,
                LayerNodeKind::Group => has_key(gall, t.push(n)[k].entity_id),
            } by {
                if k < t.len() {
                    assert(t.push(n)[k] == t[k]);
                }
            }
        }
    }
}

/// After a sync the tree accounts for the current entities: every group, and
/// every instrument and every waveform that is in no group, occurs in it, as
/// a root or as a child of a root.
pub proof fn law_sync_accounts_for_entities(
    old: Seq<NodeView>,
    i: Seq<(EntityId, InstrumentEntry)>,
    m: Seq<(EntityId, MidiClipEntry)>,
    w: Seq<(EntityId, WaveformEntry)>,
    p: Seq<(EntityId, PluginBlockEntry)>,
    g: Seq<(EntityId, GroupEntry)>,
    id: EntityId,
)
    requires
        has_key(g, id) || ((has_key(i, id) || has_key(w, id)) && !grouped_in(g, id)),
    ensures
        present(synced(old, i, m, w, p, g), id),
{
    let s2 = kept_roots(old, i, m, w, p, g);
    let st0 = (s2, seen_roots(s2, g));
    lemma_seen_roots(s2, g);
    lemma_kept_roots(old, i, m, w, p, g);
    assert forall|k: int| 0 <= k < i.len() implies has_key(i, #[trigger] i[k].0) by {}
    lemma_add_instruments(i, i, m, w, p, g, st0);
    let st1 = add_instruments(i, m, g, st0);
    assert forall|k: int| 0 <= k < w.len() implies has_key(w, #[trigger] w[k].0) by {}
    lemma_add_waveforms(i, m, w, w, p, g, st1);
    let st2 = add_waveforms(w, g, st1);
    assert forall|k: int| 0 <= k < g.len() implies has_key(g, #[trigger] g[k].0) by {}
    lemma_add_groups(i, m, w, p, g, g, st2);
    let st3 = add_groups(g, i, m, w, p, st2);
    if has_key(i, id) && !grouped_in(g, id) {
        let k = choose|k: int| 0 <= k < i.len() && i[k].0 == id;
        assert(st1.1.contains(i[k].0));
    } else if has_key(g, id) {
        let k = choose|k: int| 0 <= k < g.len() && g[k].0 == id;
        assert(st3.1.contains(g[k].0));
    } else {
        let k = choose|k: int| 0 <= k < w.len() && w[k].0 == id;
        assert(st2.1.contains(w[k].0));
    }
}

/// After a sync every root that is not a text note names an entity that the
/// map of its kind holds: stale roots are gone.
pub proof fn law_sync_drops_stale_roots(
    old: Seq<NodeView>,
    i: Seq<(EntityId, InstrumentEntry)>,
    m: Seq<(EntityId, MidiClipEntry)>,
    w: Seq<(EntityId, WaveformEntry)>,
    p: Seq<(EntityId, PluginBlockEntry)>,
    g: Seq<(EntityId, GroupEntry)>,
)
    ensures
        roots_exist(synced(old, i, m, w, p, g), i, m, w, p, g),
{
    let s2 = kept_roots(old, i, m, w, p, g);
    let st0 = (s2, seen_roots(s2, g));
    lemma_seen_roots(s2, g);
    lemma_kept_roots(old, i, m, w, p, g);
    assert forall|k: int| 0 <= k < i.len() implies has_key(i, #[trigger] i[k].0) by {}
    lemma_add_instruments(i, i, m, w, p, g, st0);
    let st1 = add_instruments(i, m, g, st0);
    assert forall|k: int| 0 <= k < w.len() implies has_key(w, #[trigger] w[k].0) by {}
    lemma_add_waveforms(i, m, w, w, p, g, st1);
    let st2 = add_waveforms(w, g, st1);
    assert forall|k: int| 0 <= k < g.len() implies has_key(g, #[trigger] g[k].0) by {}
    lemma_add_groups(i, m, w, p, g, g, st2);
}

/// No root of `t` other than a group is a member of a group of `g`.
pub open spec fn no_grouped_roots(t: Seq<NodeView>, g: Seq<(EntityId, GroupEntry)>) -> bool {
    forall|k: int|
        0 <= k < t.len() && (#[trigger] t[k]).kind != LayerNodeKind::Group ==> !grouped_in(
            g,
            t[k].entity_id,
        )
}

proof fn lemma_no_grouped_push(t: Seq<NodeView>, g: Seq<(EntityId, GroupEntry)>, n: NodeView)
    requires
        no_grouped_roots(t, g),
        n.kind != LayerNodeKind::Group ==> !grouped_in(g, n.entity_id),
    ensures
        no_grouped_roots(t.push(n), g),
{
    assert forall|k: int|
        0 <= k < t.len() + 1 && (#[trigger] t.push(n)[k]).kind != LayerNodeKind::Group implies !grouped_in(
        g,
        t.push(n)[k].entity_id,
    ) by {
        if k < t.len() {
            assert(t.push(n)[k] == t[k]);
        }
    }
}

proof fn lemma_no_grouped_instruments(
    i: Seq<(EntityId, InstrumentEntry)>,
    m: Seq<(EntityId, MidiClipEntry)>,
    g: Seq<(EntityId, GroupEntry)>,
    st: (Seq<NodeView>, Set<EntityId>),
)
    requires
        no_grouped_roots(st.0, g),
    ensures
        no_grouped_roots(add_instruments(i, m, g, st).0, g),
    decreases i.len(),
{
    if i.len() > 0 {
        lemma_no_grouped_instruments(i.drop_last(), m, g, st);
        let (t, s) = add_instruments(i.drop_last(), m, g, st);
        let id = i.last().0;
        if !s.contains(id) && !grouped_in(g, id) {
            let (c, s2) = new_clips(m, id, s);
            lemma_no_grouped_push(
                t,
                g,
                NodeView { entity_id: id, kind: LayerNodeKind::Instrument, expanded: true, children: c },
            );
        }
    }
}

proof fn lemma_no_grouped_waveforms(
    w: Seq<(EntityId, WaveformEntry)>,
    g: Seq<(EntityId, GroupEntry)>,
    st: (Seq<NodeView>, Set<EntityId>),
)
    requires
        no_grouped_roots(st.0, g),
    ensures
        no_grouped_roots(add_waveforms(w, g, st).0, g),
    decreases w.len(),
{
    if w.len() > 0 {
        lemma_no_grouped_waveforms(w.drop_last(), g, st);
        let (t, s) = add_waveforms(w.drop_last(), g, st);
        let id = w.last().0;
        if !s.contains(id) && !grouped_in(g, id) {
            lemma_no_grouped_push(t, g, leaf(id, LayerNodeKind::Waveform, false));
        }
    }
}

proof fn lemma_no_grouped_kept(
    old: Seq<NodeView>,
    i: Seq<(EntityId, InstrumentEntry)>,
    m: Seq<(EntityId, MidiClipEntry)>,
    w: Seq<(EntityId, WaveformEntry)>,
    p: Seq<(EntityId, PluginBlockEntry)>,
    g: Seq<(EntityId, GroupEntry)>,
)
    ensures
        no_grouped_roots(kept_roots(old, i, m, w, p, g), g),
    decreases old.len(),
{
    if old.len() > 0 {
        lemma_no_grouped_kept(old.drop_last(), i, m, w, p, g);
        let rest = kept_roots(old.drop_last(), i, m, w, p, g);
        if keeps_root(old.last(), i, m, w, p, g) {
            lemma_no_grouped_push(rest, g, fixed_root(old.last(), i, m, w, p, g));
        }
    }
}

proof fn lemma_no_grouped_groups(
    d: Seq<(EntityId, GroupEntry)>,
    g: Seq<(EntityId, GroupEntry)>,
    i: Seq<(EntityId, InstrumentEntry)>,
    m: Seq<(EntityId, MidiClipEntry)>,
    w: Seq<(EntityId, WaveformEntry)>,
    p: Seq<(EntityId, PluginBlockEntry)>,
    st: (Seq<NodeView>, Set<EntityId>),
)
    requires
        no_grouped_roots(st.0, g),
    ensures
        no_grouped_roots(add_groups(d, i, m, w, p, st).0, g),
    decreases d.len(),
{
    if d.len() > 0 {
        lemma_no_grouped_groups(d.drop_last(), g, i, m, w, p, st);
        let (t, s) = add_groups(d.drop_last(), i, m, w, p, st);
        let id = d.last().0;
        if !s.contains(id) {
            let (c, s2) = new_members(d.last().1.member_ids@, i, m, w, p, s);
            lemma_no_grouped_push(
                t,
                g,
                NodeView { entity_id: id, kind: LayerNodeKind::Group, expanded: true, children: c },
            );
        }
    }
}

/// After a sync no root other than a group is a member of a group: members
/// appear only under their group.
pub proof fn law_sync_keeps_members_off_the_top(
    old: Seq<NodeView>,
    i: Seq<(EntityId, InstrumentEntry)>,
    m: Seq<(EntityId, MidiClipEntry)>,
    w: Seq<(EntityId, WaveformEntry)>,
    p: Seq<(EntityId, PluginBlockEntry)>,
    g: Seq<(EntityId, GroupEntry)>,
)
    ensures
        no_grouped_roots(synced(old, i, m, w, p, g), g),
{
    let s2 = kept_roots(old, i, m, w, p, g);
    lemma_no_grouped_kept(old, i, m, w, p, g);
    let st0 = (s2, seen_roots(s2, g));
    lemma_no_grouped_instruments(i, m, g, st0);
    let st1 = add_instruments(i, m, g, st0);
    lemma_no_grouped_waveforms(w, g, st1);
    let st2 = add_waveforms(w, g, st1);
    lemma_no_grouped_groups(g, g, i, m, w, p, st2);
}

/// The positions in `s` of the roots that survive a sync, in order.
pub open spec fn kept_positions(
    s: Seq<NodeView>,
    i: Seq<(EntityId, InstrumentEntry)>,
    m: Seq<(EntityId, MidiClipEntry)>,
    w: Seq<(EntityId, WaveformEntry)>,
    p: Seq<(EntityId, PluginBlockEntry)>,
    g: Seq<(EntityId, GroupEntry)>,
) -> Seq<int>
    decreases s.len(),
{
    if s.len() == 0 {
        Seq::empty()
    } else {
        let rest = kept_positions(s.drop_last(), i, m, w, p, g);
        if keeps_root(s.last(), i, m, w, p, g) {
            rest.push(s.len() - 1)
        } else {
            rest
        }
    }
}

/// `b` starts with `a`.
pub open spec fn extends<T>(a: Seq<T>, b: Seq<T>) -> bool {
    a.len() <= b.len() && b.take(a.len() as int) == a
}

proof fn lemma_extends_push<T>(a: Seq<T>, b: Seq<T>, x: T)
    requires
        extends(a, b),
    ensures
        extends(a, b.push(x)),
{
    assert(b.push(x).take(a.len() as int) =~= b.take(a.len() as int));
}

proof fn lemma_kept_positions(
    s: Seq<NodeView>,
    i: Seq<(EntityId, InstrumentEntry)>,
    m: Seq<(EntityId, MidiClipEntry)>,
    w: Seq<(EntityId, WaveformEntry)>,
    p: Seq<(EntityId, PluginBlockEntry)>,
    g: Seq<(EntityId, GroupEntry)>,
)
    ensures
        kept_positions(s, i, m, w, p, g).len() == kept_roots(s, i, m, w, p, g).len(),
        forall|a: int, b: int|
            0 <= a < b < kept_positions(s, i, m, w, p, g).len() ==> kept_positions(
                s,
                i,
                m,
                w,
                p,
                g,
            )[a] < kept_positions(s, i, m, w, p, g)[b],
        forall|k: int|
            0 <= k < kept_positions(s, i, m, w, p, g).len() ==> {
                let j = #[trigger] kept_positions(s, i, m, w, p, g)[k];
                let r = kept_roots(s, i, m, w, p, g)[k];
                &&& 0 <= j < s.len()
                &&& r.entity_id == s[j].entity_id
                &&& r.kind == s[j].kind
                &&& r.expanded == s[j].expanded
            },
    decreases s.len(),
{
    if s.len() > 0 {
        let d = s.drop_last();
        lemma_kept_positions(d, i, m, w, p, g);
        let pd = kept_positions(d, i, m, w, p, g);
        let ps = kept_positions(s, i, m, w, p, g);
        let rs = kept_roots(s, i, m, w, p, g);
        let rd = kept_roots(d, i, m, w, p, g);
        assert forall|k: int| 0 <= k < pd.len() implies 0 <= #[trigger] pd[k] < d.len() && d[pd[k]]
            == s[pd[k]] by {}
        assert forall|k: int| 0 <= k < ps.len() implies {
            let j = #[trigger] ps[k];
            let r = rs[k];
            &&& 0 <= j < s.len()
            &&& r.entity_id == s[j].entity_id
            &&& r.kind == s[j].kind
            &&& r.expanded == s[j].expanded
        } by {
            if k < pd.len() {
                assert(ps[k] == pd[k]);
                assert(rs[k] == rd[k]);
            }
        }
    }
}

proof fn lemma_adds_extend(
    i: Seq<(EntityId, InstrumentEntry)>,
    m: Seq<(EntityId, MidiClipEntry)>,
    w: Seq<(EntityId, WaveformEntry)>,
    p: Seq<(EntityId, PluginBlockEntry)>,
    g: Seq<(EntityId, GroupEntry)>,
    st: (Seq<NodeView>, Set<EntityId>),
)
    ensures
        extends(st.0, add_instruments(i, m, g, st).0),
        extends(st.0, add_waveforms(w, g, st).0),
        extends(st.0, add_groups(g, i, m, w, p, st).0),
    decreases i.len() + w.len() + g.len(),
{
    assert(st.0.take(st.0.len() as int) =~= st.0);
    if i.len() > 0 {
        lemma_adds_extend(i.drop_last(), m, Seq::empty(), p, g, st);
        let (t, s) = add_instruments(i.drop_last(), m, g, st);
        let (c, s2) = new_clips(m, i.last().0, s);
        lemma_extends_push(
            st.0,
            t,
            NodeView {
                entity_id: i.last().0,
                kind: LayerNodeKind::Instrument,
                expanded: true,
                children: c,
            },
        );
    }
    if w.len() > 0 {
        lemma_adds_extend(Seq::empty(), m, w.drop_last(), p, g, st);
        let (t, s) = add_waveforms(w.drop_last(), g, st);
        lemma_extends_push(st.0, t, leaf(w.last().0, LayerNodeKind::Waveform, false));
    }
    if g.len() > 0 {
        lemma_adds_extend(i, m, w, p, g.drop_last(), st);
        let (t, s) = add_groups(g.drop_last(), i, m, w, p, st);
        let (c, s2) = new_members(g.last().1.member_ids@, i, m, w, p, s);
        lemma_extends_push(
            st.0,
            t,
            NodeView { entity_id: g.last().0, kind: LayerNodeKind::Group, expanded: true, children: c },
        );
    }
}

/// A sync keeps the surviving roots first, in their old order and with their
/// old expanded state: the synced tree starts with one root for each
/// surviving old root, at increasing old positions, with the same
/// identifier, kind and expanded flag.
pub proof fn law_sync_keeps_order_and_state(
    old: Seq<NodeView>,
    i: Seq<(EntityId, InstrumentEntry)>,
    m: Seq<(EntityId, MidiClipEntry)>,
    w: Seq<(EntityId, WaveformEntry)>,
    p: Seq<(EntityId, PluginBlockEntry)>,
    g: Seq<(EntityId, GroupEntry)>,
)
    ensures
        ({
            let kept = kept_roots(old, i, m, w, p, g);
            let pos = kept_positions(old, i, m, w, p, g);
            let r = synced(old, i, m, w, p, g);
            &&& extends(kept, r)
            &&& pos.len() == kept.len()
            &&& forall|a: int, b: int| 0 <= a < b < pos.len() ==> pos[a] < pos[b]
            &&& forall|k: int|
                0 <= k < pos.len() ==> 0 <= #[trigger] pos[k] < old.len() && r[k].entity_id
                    == old[pos[k]].entity_id && r[k].kind == old[pos[k]].kind && r[k].expanded
                    == old[pos[k]].expanded
        }),
{
    let kept = kept_roots(old, i, m, w, p, g);
    let pos = kept_positions(old, i, m, w, p, g);
    lemma_kept_positions(old, i, m, w, p, g);
    let st0 = (kept, seen_roots(kept, g));
    lemma_adds_extend(i, m, w, p, g, st0);
    let st1 = add_instruments(i, m, g, st0);
    lemma_adds_extend(i, m, w, p, g, st1);
    let st2 = add_waveforms(w, g, st1);
    lemma_adds_extend(i, m, w, p, g, st2);
    let r = synced(old, i, m, w, p, g);
    assert(extends(kept, r)) by {
        assert(r.take(st1.0.len() as int) == st1.0);
        assert(st2.0.take(st1.0.len() as int) == st1.0);
        assert(r.take(st2.0.len() as int) == st2.0);
        assert(r.take(kept.len() as int) =~= st2.0.take(st1.0.len() as int).take(kept.len() as int));
    }
    assert forall|k: int| 0 <= k < pos.len() implies 0 <= #[trigger] pos[k] < old.len() && r[k].entity_id
        == old[pos[k]].entity_id && r[k].kind == old[pos[k]].kind && r[k].expanded
        == old[pos[k]].expanded by {
        assert(r.take(kept.len() as int)[k] == kept[k]);
    }
}

/// The order keys of `s` never decrease.
pub open spec fn nondecreasing(s: Seq<(EntityId, u32)>) -> bool {
    forall|a: int, b: int| 0 <= a < b < s.len() ==> s[a].1 <= s[b].1
}

proof fn lemma_insert_by_order(s: Seq<(EntityId, u32)>, x: (EntityId, u32))
    requires
        nondecreasing(s),
    ensures
        nondecreasing(insert_by_order(s, x)),
        insert_by_order(s, x).to_multiset() == s.to_multiset().insert(x),
        insert_by_order(s, x).len() == s.len() + 1,
        s.len() > 0 ==> insert_by_order(s, x).last() == (if s.last().1 <= x.1 { x } else { s.last() }),
    decreases s.len(),
{
    broadcast use vstd::seq_lib::group_to_multiset_ensures;

    if s.len() == 0 || s.last().1 <= x.1 {
    } else {
        let d = s.drop_last();
        assert(s =~= d.push(s.last()));
        lemma_insert_by_order(d, x);
        let r = insert_by_order(d, x);
        assert forall|a: int, b: int| 0 <= a < b < r.len() + 1 implies r.push(s.last())[a].1 <= r.push(
            s.last(),
        )[b].1 by {
            if b == r.len() {
                if d.len() > 0 {
                    assert(r.last().1 <= s.last().1);
                    if a < r.len() - 1 {
                        assert(r[a].1 <= r[r.len() - 1].1);
                    }
                }
            }
        }
        assert(r.push(s.last()).to_multiset() =~= s.to_multiset().insert(x));
    }
}

/// The waveform order is sorted: its keys never decrease, and it holds
/// exactly the waveforms it was given.
pub proof fn law_waveform_order_sorted(s: Seq<(EntityId, u32)>)
    ensures
        nondecreasing(sorted_by_order(s)),
        sorted_by_order(s).to_multiset() == s.to_multiset(),
    decreases s.len(),
{
    broadcast use vstd::seq_lib::group_to_multiset_ensures;

    if s.len() == 0 {
        assert(sorted_by_order(s).to_multiset() =~= s.to_multiset());
    } else {
        law_waveform_order_sorted(s.drop_last());
        lemma_insert_by_order(sorted_by_order(s.drop_last()), s.last());
        assert(s =~= s.drop_last().push(s.last()));
    }
}


// ---------------------------------------------------------------------------
// Members are placed under their group
// ---------------------------------------------------------------------------

proof fn lemma_has_id_concat(a: Seq<NodeView>, b: Seq<NodeView>, x: EntityId)
    ensures
        has_id(a + b, x) <==> (has_id(a, x) || has_id(b, x)),
{
    if has_id(a + b, x) {
        let j = choose|j: int| 0 <= j < (a + b).len() && (a + b)[j].entity_id == x;
        if j >= a.len() {
            assert(b[j - a.len()] == (a + b)[j]);
        }
    }
    if has_id(a, x) {
        let j = choose|j: int| 0 <= j < a.len() && a[j].entity_id == x;
        assert((a + b)[j] == a[j]);
    }
    if has_id(b, x) {
        let j = choose|j: int| 0 <= j < b.len() && b[j].entity_id == x;
        assert((a + b)[a.len() + j] == b[j]);
    }
}

proof fn lemma_has_id_push(a: Seq<NodeView>, n: NodeView, x: EntityId)
    ensures
        has_id(a.push(n), x) <==> (has_id(a, x) || n.entity_id == x),
{
    if has_id(a.push(n), x) {
        let j = choose|j: int| 0 <= j < a.push(n).len() && a.push(n)[j].entity_id == x;
        if j < a.len() {
            assert(a[j] == a.push(n)[j]);
        }
    }
    if has_id(a, x) {
        let j = choose|j: int| 0 <= j < a.len() && a[j].entity_id == x;
        assert(a.push(n)[j] == a[j]);
    }
    assert(a.push(n)[a.len() as int] == n);
}

proof fn lemma_existing_clips_from(s: Seq<NodeView>, m: Seq<(EntityId, MidiClipEntry)>, x: EntityId)
    ensures
        has_id(existing_clips(s, m), x) ==> has_id(s, x),
    decreases s.len(),
{
    if s.len() > 0 {
        lemma_existing_clips_from(s.drop_last(), m, x);
        lemma_has_id_push(existing_clips(s.drop_last(), m), s.last(), x);
        lemma_has_id_push(s.drop_last(), s.last(), x);
        assert(s.drop_last().push(s.last()) =~= s);
    }
}

proof fn lemma_existing_members_from(
    s: Seq<NodeView>,
    i: Seq<(EntityId, InstrumentEntry)>,
    m: Seq<(EntityId, MidiClipEntry)>,
    w: Seq<(EntityId, WaveformEntry)>,
    p: Seq<(EntityId, PluginBlockEntry)>,
    x: EntityId,
)
    ensures
        has_id(existing_members(s, i, m, w, p), x) ==> has_id(s, x),
    decreases s.len(),
{
    if s.len() > 0 {
        lemma_existing_members_from(s.drop_last(), i, m, w, p, x);
        lemma_has_id_push(existing_members(s.drop_last(), i, m, w, p), s.last(), x);
        lemma_has_id_push(s.drop_last(), s.last(), x);
        assert(s.drop_last().push(s.last()) =~= s);
    }
}

proof fn lemma_added_clips_from(
    m: Seq<(EntityId, MidiClipEntry)>,
    inst: EntityId,
    e: Set<EntityId>,
    x: EntityId,
)
    ensures
        has_id(added_clips(m, inst, e), x) ==> has_key(m, x),
    decreases m.len(),
{
    if m.len() > 0 {
        lemma_added_clips_from(m.drop_last(), inst, e, x);
        let rest = added_clips(m.drop_last(), inst, e);
        lemma_has_id_push(rest, leaf(m.last().0, LayerNodeKind::MidiClip, false), x);
        if has_key(m.drop_last(), x) {
            let j = choose|j: int| 0 <= j < m.drop_last().len() && m.drop_last()[j].0 == x;
            assert(m[j] == m.drop_last()[j]);
        }
        assert(m[m.len() - 1] == m.last());
    }
}

proof fn lemma_added_members_from(
    ids: Seq<EntityId>,
    e: Set<EntityId>,
    i: Seq<(EntityId, InstrumentEntry)>,
    m: Seq<(EntityId, MidiClipEntry)>,
    w: Seq<(EntityId, WaveformEntry)>,
    p: Seq<(EntityId, PluginBlockEntry)>,
    x: EntityId,
)
    ensures
        has_id(added_members(ids, e, i, m, w, p), x) ==> member_kind_of(i, m, w, p, x) is Some,
        ids.contains(x) && !e.contains(x) && member_kind_of(i, m, w, p, x) is Some ==> has_id(
            added_members(ids, e, i, m, w, p),
            x,
        ),
    decreases ids.len(),
{
    if ids.len() > 0 {
        let d = ids.drop_last();
        lemma_added_members_from(d, e, i, m, w, p, x);
        let rest = added_members(d, e, i, m, w, p);
        let y = ids.last();
        if !e.contains(y) && member_kind_of(i, m, w, p, y) is Some {
            lemma_has_id_push(rest, leaf(y, member_kind_of(i, m, w, p, y)->0, false), x);
        }
        if ids.contains(x) && x != y {
            let j = choose|j: int| 0 <= j < ids.len() && ids[j] == x;
            assert(d[j] == ids[j]);
        }
    }
}

proof fn lemma_new_clips_from(m: Seq<(EntityId, MidiClipEntry)>, inst: EntityId, seen: Set<EntityId>, x: EntityId)
    ensures
        new_clips(m, inst, seen).1.contains(x) ==> seen.contains(x) || has_key(m, x),
    decreases m.len(),
{
    if m.len() > 0 {
        lemma_new_clips_from(m.drop_last(), inst, seen, x);
        if has_key(m.drop_last(), x) {
            let j = choose|j: int| 0 <= j < m.drop_last().len() && m.drop_last()[j].0 == x;
            assert(m[j] == m.drop_last()[j]);
        }
        assert(m[m.len() - 1] == m.last());
    }
}

proof fn lemma_new_members_from(
    ids: Seq<EntityId>,
    i: Seq<(EntityId, InstrumentEntry)>,
    m: Seq<(EntityId, MidiClipEntry)>,
    w: Seq<(EntityId, WaveformEntry)>,
    p: Seq<(EntityId, PluginBlockEntry)>,
    seen: Set<EntityId>,
    x: EntityId,
)
    ensures
        new_members(ids, i, m, w, p, seen).1.contains(x) ==> seen.contains(x) || member_kind_of(
            i,
            m,
            w,
            p,
            x,
        ) is Some,
        ids.contains(x) && member_kind_of(i, m, w, p, x) is Some ==> new_members(
            ids,
            i,
            m,
            w,
            p,
            seen,
        ).1.contains(x),
    decreases ids.len(),
{
    if ids.len() > 0 {
        let d = ids.drop_last();
        lemma_new_members_from(d, i, m, w, p, seen, x);
        if ids.contains(x) && x != ids.last() {
            let j = choose|j: int| 0 <= j < ids.len() && ids[j] == x;
            assert(d[j] == ids[j]);
        }
    }
}

proof fn lemma_add_instruments_from(
    i: Seq<(EntityId, InstrumentEntry)>,
    m: Seq<(EntityId, MidiClipEntry)>,
    g: Seq<(EntityId, GroupEntry)>,
    st: (Seq<NodeView>, Set<EntityId>),
    x: EntityId,
)
    ensures
        add_instruments(i, m, g, st).1.contains(x) ==> st.1.contains(x) || has_key(i, x) || has_key(m, x),
    decreases i.len(),
{
    if i.len() > 0 {
        lemma_add_instruments_from(i.drop_last(), m, g, st, x);
        let (t, s) = add_instruments(i.drop_last(), m, g, st);
        lemma_new_clips_from(m, i.last().0, s, x);
        if has_key(i.drop_last(), x) {
            let j = choose|j: int| 0 <= j < i.drop_last().len() && i.drop_last()[j].0 == x;
            assert(i[j] == i.drop_last()[j]);
        }
        assert(i[i.len() - 1] == i.last());
    }
}

proof fn lemma_add_waveforms_from(
    w: Seq<(EntityId, WaveformEntry)>,
    g: Seq<(EntityId, GroupEntry)>,
    st: (Seq<NodeView>, Set<EntityId>),
    x: EntityId,
)
    ensures
        add_waveforms(w, g, st).1.contains(x) ==> st.1.contains(x) || has_key(w, x),
    decreases w.len(),
{
    if w.len() > 0 {
        lemma_add_waveforms_from(w.drop_last(), g, st, x);
        if has_key(w.drop_last(), x) {
            let j = choose|j: int| 0 <= j < w.drop_last().len() && w.drop_last()[j].0 == x;
            assert(w[j] == w.drop_last()[j]);
        }
        assert(w[w.len() - 1] == w.last());
    }
}

proof fn lemma_add_groups_from(
    d: Seq<(EntityId, GroupEntry)>,
    i: Seq<(EntityId, InstrumentEntry)>,
    m: Seq<(EntityId, MidiClipEntry)>,
    w: Seq<(EntityId, WaveformEntry)>,
    p: Seq<(EntityId, PluginBlockEntry)>,
    st: (Seq<NodeView>, Set<EntityId>),
    x: EntityId,
)
    ensures
        add_groups(d, i, m, w, p, st).1.contains(x) ==> st.1.contains(x) || has_key(d, x)
            || member_kind_of(i, m, w, p, x) is Some,
    decreases d.len(),
{
    if d.len() > 0 {
        lemma_add_groups_from(d.drop_last(), i, m, w, p, st, x);
        let (t, s) = add_groups(d.drop_last(), i, m, w, p, st);
        lemma_new_members_from(d.last().1.member_ids@, i, m, w, p, s, x);
        if has_key(d.drop_last(), x) {
            let j = choose|j: int| 0 <= j < d.drop_last().len() && d.drop_last()[j].0 == x;
            assert(d[j] == d.drop_last()[j]);
        }
        assert(d[d.len() - 1] == d.last());
    }
}

proof fn lemma_add_groups_prefix(
    d: Seq<(EntityId, GroupEntry)>,
    j: int,
    i: Seq<(EntityId, InstrumentEntry)>,
    m: Seq<(EntityId, MidiClipEntry)>,
    w: Seq<(EntityId, WaveformEntry)>,
    p: Seq<(EntityId, PluginBlockEntry)>,
    st: (Seq<NodeView>, Set<EntityId>),
)
    requires
        0 <= j <= d.len(),
    ensures
        extends(add_groups(d.take(j), i, m, w, p, st).0, add_groups(d, i, m, w, p, st).0),
    decreases d.len(),
{
    let a = add_groups(d.take(j), i, m, w, p, st).0;
    if j == d.len() {
        assert(d.take(j) =~= d);
        assert(a.take(a.len() as int) =~= a);
    } else {
        let e = d.drop_last();
        assert(e.take(j) =~= d.take(j));
        lemma_add_groups_prefix(e, j, i, m, w, p, st);
        let (t, s) = add_groups(e, i, m, w, p, st);
        if !s.contains(d.last().0) {
            let (c, s2) = new_members(d.last().1.member_ids@, i, m, w, p, s);
            lemma_extends_push(
                a,
                t,
                NodeView { entity_id: d.last().0, kind: LayerNodeKind::Group, expanded: true, children: c },
            );
        }
    }
}

proof fn lemma_present_extends(a: Seq<NodeView>, b: Seq<NodeView>, x: EntityId)
    requires
        extends(a, b),
        present(a, x),
    ensures
        present(b, x),
{
    if has_id(a, x) {
        let j = choose|j: int| 0 <= j < a.len() && a[j].entity_id == x;
        assert(b.take(a.len() as int)[j] == b[j]);
        assert(b[j].entity_id == x);
    } else {
        let k = choose|k: int| 0 <= k < a.len() && has_id(#[trigger] a[k].children, x);
        assert(b.take(a.len() as int)[k] == b[k]);
        assert(has_id(b[k].children, x));
    }
}

/// In `s`, identifier `gid` names only group roots: no other root and no
/// child has it.
pub open spec fn names_only_groups(s: Seq<NodeView>, gid: EntityId) -> bool {
    forall|r: int|
        0 <= r < s.len() ==> ((#[trigger] s[r]).entity_id == gid ==> s[r].kind == LayerNodeKind::Group)
            && !has_id(s[r].children, gid)
}

proof fn lemma_kept_names_only_groups(
    old: Seq<NodeView>,
    i: Seq<(EntityId, InstrumentEntry)>,
    m: Seq<(EntityId, MidiClipEntry)>,
    w: Seq<(EntityId, WaveformEntry)>,
    p: Seq<(EntityId, PluginBlockEntry)>,
    g: Seq<(EntityId, GroupEntry)>,
    gid: EntityId,
)
    requires
        names_only_groups(old, gid),
        member_kind_of(i, m, w, p, gid) is None,
    ensures
        names_only_groups(kept_roots(old, i, m, w, p, g), gid),
    decreases old.len(),
{
    if old.len() > 0 {
        let d = old.drop_last();
        assert forall|r: int| 0 <= r < d.len() implies ((#[trigger] d[r]).entity_id == gid ==> d[r].kind
            == LayerNodeKind::Group) && !has_id(d[r].children, gid) by {
            assert(d[r] == old[r]);
        }
        lemma_kept_names_only_groups(d, i, m, w, p, g, gid);
        let rest = kept_roots(d, i, m, w, p, g);
        let n = old.last();
        assert(n == old[old.len() - 1]);
        if keeps_root(n, i, m, w, p, g) {
            let f = fixed_root(n, i, m, w, p, g);
            assert(!has_id(f.children, gid)) by {
                if n.kind == LayerNodeKind::Instrument {
                    let kept = existing_clips(n.children, m);
                    lemma_existing_clips_from(n.children, m, gid);
                    lemma_added_clips_from(m, n.entity_id, ids_of(kept), gid);
                    lemma_has_id_concat(kept, added_clips(m, n.entity_id, ids_of(kept)), gid);
                } else if n.kind == LayerNodeKind::Group && has_key(g, n.entity_id) {
                    let kept = existing_members(n.children, i, m, w, p);
                    let ids = key_value(g, n.entity_id).member_ids@;
                    lemma_existing_members_from(n.children, i, m, w, p, gid);
                    lemma_added_members_from(ids, ids_of(kept), i, m, w, p, gid);
                    lemma_has_id_concat(kept, added_members(ids, ids_of(kept), i, m, w, p), gid);
                }
            }
            assert forall|r: int| 0 <= r < rest.len() + 1 implies ((#[trigger] rest.push(f)[r]).entity_id
                == gid ==> rest.push(f)[r].kind == LayerNodeKind::Group) && !has_id(
                rest.push(f)[r].children,
                gid,
            ) by {
                if r < rest.len() {
                    assert(rest.push(f)[r] == rest[r]);
                }
            }
        }
    }
}

proof fn lemma_kept_groups_hold_members(
    old: Seq<NodeView>,
    i: Seq<(EntityId, InstrumentEntry)>,
    m: Seq<(EntityId, MidiClipEntry)>,
    w: Seq<(EntityId, WaveformEntry)>,
    p: Seq<(EntityId, PluginBlockEntry)>,
    g: Seq<(EntityId, GroupEntry)>,
    x: EntityId,
)
    requires
        member_kind_of(i, m, w, p, x) is Some,
    ensures
        forall|r: int|
            0 <= r < kept_roots(old, i, m, w, p, g).len() && (#[trigger] kept_roots(
                old,
                i,
                m,
                w,
                p,
                g,
            )[r]).kind == LayerNodeKind::Group && key_value(
                g,
                kept_roots(old, i, m, w, p, g)[r].entity_id,
            ).member_ids@.contains(x) ==> has_id(kept_roots(old, i, m, w, p, g)[r].children, x),
    decreases old.len(),
{
    if old.len() > 0 {
        let d = old.drop_last();
        lemma_kept_groups_hold_members(d, i, m, w, p, g, x);
        let rest = kept_roots(d, i, m, w, p, g);
        let n = old.last();
        if keeps_root(n, i, m, w, p, g) {
            let f = fixed_root(n, i, m, w, p, g);
            if n.kind == LayerNodeKind::Group && key_value(g, n.entity_id).member_ids@.contains(x) {
                let kept = existing_members(n.children, i, m, w, p);
                let ids = key_value(g, n.entity_id).member_ids@;
                lemma_added_members_from(ids, ids_of(kept), i, m, w, p, x);
                lemma_has_id_concat(kept, added_members(ids, ids_of(kept), i, m, w, p), x);
                assert(has_id(f.children, x));
            }
            assert forall|r: int|
                0 <= r < rest.len() + 1 && (#[trigger] rest.push(f)[r]).kind == LayerNodeKind::Group
                    && key_value(g, rest.push(f)[r].entity_id).member_ids@.contains(x) implies has_id(
                rest.push(f)[r].children,
                x,
            ) by {
                if r < rest.len() {
                    assert(rest.push(f)[r] == rest[r]);
                }
            }
        }
    }
}

/// After a sync every member of a group that exists in some map stands in
/// the tree, when the group's identifier is its own: no instrument, clip,
/// waveform or plugin block has it, no other group entry has it, and in the
/// tree before the sync only group roots have it.
pub proof fn law_sync_places_members(
    old: Seq<NodeView>,
    i: Seq<(EntityId, InstrumentEntry)>,
    m: Seq<(EntityId, MidiClipEntry)>,
    w: Seq<(EntityId, WaveformEntry)>,
    p: Seq<(EntityId, PluginBlockEntry)>,
    g: Seq<(EntityId, GroupEntry)>,
    k: int,
    x: EntityId,
)
    requires
        sole_key_at(g, g[k].0, k),
        g[k].1.member_ids@.contains(x),
        member_kind_of(i, m, w, p, x) is Some,
        member_kind_of(i, m, w, p, g[k].0) is None,
        names_only_groups(old, g[k].0),
    ensures
        present(synced(old, i, m, w, p, g), x),
{
    let gid = g[k].0;
    let s2 = kept_roots(old, i, m, w, p, g);
    let st0 = (s2, seen_roots(s2, g));
    lemma_seen_roots(s2, g);
    lemma_kept_roots(old, i, m, w, p, g);
    lemma_kept_names_only_groups(old, i, m, w, p, g, gid);
    assert(key_value(g, gid) == g[k].1) by {
        let c = choose|c: int| 0 <= c < g.len() && g[c].0 == gid;
        assert(c == k);
    }
    let st1 = add_instruments(i, m, g, st0);
    let st2 = add_waveforms(w, g, st1);
    let r = synced(old, i, m, w, p, g);
    if present(s2, gid) {
        // The group already stands in the tree and receives its members there.
        let q = if has_id(s2, gid) {
            choose|q: int| 0 <= q < s2.len() && s2[q].entity_id == gid
        } else {
            let q = choose|q: int| 0 <= q < s2.len() && has_id(#[trigger] s2[q].children, gid);
            assert(!has_id(s2[q].children, gid));
            q
        };
        assert(s2[q].kind == LayerNodeKind::Group);
        lemma_kept_groups_hold_members(old, i, m, w, p, g, x);
        assert(has_id(s2[q].children, x));
        assert(present(s2, x));
        law_sync_keeps_order_and_state(old, i, m, w, p, g);
        lemma_present_extends(s2, r, x);
    } else {
        // The group is added as a root with its members, unless already seen.
        lemma_add_instruments_from(i, m, g, st0, gid);
        lemma_add_waveforms_from(w, g, st1, gid);
        assert(!st0.1.contains(gid));
        assert(!st2.1.contains(gid));
        assert forall|c: int| 0 <= c < i.len() implies has_key(i, #[trigger] i[c].0) by {}
        lemma_add_instruments(i, i, m, w, p, g, st0);
        assert forall|c: int| 0 <= c < w.len() implies has_key(w, #[trigger] w[c].0) by {}
        lemma_add_waveforms(i, m, w, w, p, g, st1);
        let gk = g.take(k);
        assert forall|c: int| 0 <= c < gk.len() implies has_key(g, #[trigger] gk[c].0) by {
            assert(gk[c] == g[c]);
        }
        lemma_add_groups(i, m, w, p, gk, g, st2);
        let (t, s) = add_groups(gk, i, m, w, p, st2);
        lemma_add_groups_from(gk, i, m, w, p, st2, gid);
        assert(!has_key(gk, gid)) by {
            if has_key(gk, gid) {
                let c = choose|c: int| 0 <= c < gk.len() && gk[c].0 == gid;
                assert(g[c].0 == gid);
            }
        }
        assert(!s.contains(gid));
        let g1 = g.take(k + 1);
        assert(g1.drop_last() =~= gk);
        assert(g1.last() == g[k]);
        let (c, s3) = new_members(g[k].1.member_ids@, i, m, w, p, s);
        let n = NodeView { entity_id: gid, kind: LayerNodeKind::Group, expanded: true, children: c };
        assert(add_groups(g1, i, m, w, p, st2).0 == t.push(n));
        lemma_new_members_from(g[k].1.member_ids@, i, m, w, p, s, x);
        lemma_new_members(g[k].1.member_ids@, i, m, w, p, s, x);
        if s.contains(x) {
            assert(present(t, x));
            lemma_present_push(t, n, x);
        } else {
            assert(has_id(c, x));
            lemma_present_pushed(t, n, x);
        }
        lemma_add_groups_prefix(g, k + 1, i, m, w, p, st2);
        lemma_present_extends(t.push(n), r, x);
    }
}


// ---------------------------------------------------------------------------
// The groups of the default tree
// ---------------------------------------------------------------------------

/// An identifier that some entity map holds.
pub open spec fn known(
    i: Seq<(EntityId, InstrumentEntry)>,
    m: Seq<(EntityId, MidiClipEntry)>,
    w: Seq<(EntityId, WaveformEntry)>,
    p: Seq<(EntityId, PluginBlockEntry)>,
    id: EntityId,
) -> bool {
    has_key(i, id) || has_key(m, id) || has_key(w, id) || has_key(p, id)
}

/// A member leaf: collapsed, without children, and of the kind of the first
/// map that holds it (instruments, then MIDI clips, waveforms, plugin blocks).
pub open spec fn member_leaf_ok(
    n: NodeView,
    i: Seq<(EntityId, InstrumentEntry)>,
    m: Seq<(EntityId, MidiClipEntry)>,
    w: Seq<(EntityId, WaveformEntry)>,
    p: Seq<(EntityId, PluginBlockEntry)>,
) -> bool {
    &&& !n.expanded
    &&& n.children.len() == 0
    &&& (has_key(i, n.entity_id) ==> n.kind == LayerNodeKind::Instrument)
    &&& (!has_key(i, n.entity_id) && has_key(m, n.entity_id) ==> n.kind == LayerNodeKind::MidiClip)
    &&& (!has_key(i, n.entity_id) && !has_key(m, n.entity_id) && has_key(w, n.entity_id) ==> n.kind
        == LayerNodeKind::Waveform)
    &&& (!has_key(i, n.entity_id) && !has_key(m, n.entity_id) && !has_key(w, n.entity_id) ==> n.kind
        == LayerNodeKind::PluginBlock)
}

proof fn lemma_member_leaves_known(
    ids: Seq<EntityId>,
    i: Seq<(EntityId, InstrumentEntry)>,
    m: Seq<(EntityId, MidiClipEntry)>,
    w: Seq<(EntityId, WaveformEntry)>,
    p: Seq<(EntityId, PluginBlockEntry)>,
)
    ensures
        member_leaves(ids, i, m, w, p).map_values(|c: NodeView| c.entity_id) == ids.filter(
            |x: EntityId| known(i, m, w, p, x),
        ),
        forall|j: int|
            0 <= j < member_leaves(ids, i, m, w, p).len() ==> member_leaf_ok(
                #[trigger] member_leaves(ids, i, m, w, p)[j],
                i,
                m,
                w,
                p,
            ),
    decreases ids.len(),
{
    reveal(Seq::filter);
    if ids.len() > 0 {
        let d = ids.drop_last();
        lemma_member_leaves_known(d, i, m, w, p);
        let rest = member_leaves(d, i, m, w, p);
        let x = ids.last();
        if known(i, m, w, p, x) {
            let n = leaf(x, member_kind_of(i, m, w, p, x)->0, false);
            assert(member_leaves(ids, i, m, w, p) == rest.push(n));
            assert(rest.push(n).map_values(|c: NodeView| c.entity_id) =~= rest.map_values(
                |c: NodeView| c.entity_id,
            ).push(x));
            assert forall|j: int| 0 <= j < rest.len() + 1 implies member_leaf_ok(
                #[trigger] rest.push(n)[j],
                i,
                m,
                w,
                p,
            ) by {
                if j < rest.len() {
                    assert(rest.push(n)[j] == rest[j]);
                }
            }
        } else {
            assert(member_leaves(ids, i, m, w, p) == rest);
        }
    }
}

/// In the default tree, the last roots are the groups, in map order, each
/// expanded and holding exactly its members that some entity map holds, in
/// member order, as collapsed leaves of the kind of the first map that holds
/// them.
pub proof fn law_default_groups_hold_known_members(
    i: Seq<(EntityId, InstrumentEntry)>,
    m: Seq<(EntityId, MidiClipEntry)>,
    w: Seq<(EntityId, WaveformEntry)>,
    p: Seq<(EntityId, PluginBlockEntry)>,
    g: Seq<(EntityId, GroupEntry)>,
    k: int,
)
    requires
        0 <= k < g.len(),
    ensures
        default_tree(i, m, w, p, g).len() >= g.len(),
        ({
            let t = default_tree(i, m, w, p, g);
            let r = t[t.len() - g.len() + k];
            &&& r.entity_id == g[k].0
            &&& r.kind == LayerNodeKind::Group
            &&& r.expanded
            &&& r.children.map_values(|c: NodeView| c.entity_id) == g[k].1.member_ids@.filter(
                |x: EntityId| known(i, m, w, p, x),
            )
            &&& forall|j: int|
                0 <= j < r.children.len() ==> member_leaf_ok(#[trigger] r.children[j], i, m, w, p)
        }),
{
    let t = default_tree(i, m, w, p, g);
    let a = instrument_roots(i, m) + waveform_roots(w);
    let gr = group_roots(g, i, m, w, p);
    assert(t == a + gr);
    assert(t[a.len() + k] == gr[k]);
    lemma_member_leaves_known(g[k].1.member_ids@, i, m, w, p);
}


proof fn lemma_clip_leaves_played(m: Seq<(EntityId, MidiClipEntry)>, inst: EntityId)
    ensures
        clip_leaves(m, inst).map_values(|c: NodeView| c.entity_id) == m.filter(
            |e: (EntityId, MidiClipEntry)| e.1.instrument_id == Some(inst),
        ).map_values(|e: (EntityId, MidiClipEntry)| e.0),
        forall|j: int|
            0 <= j < clip_leaves(m, inst).len() ==> #[trigger] clip_leaves(m, inst)[j] == leaf(
                clip_leaves(m, inst)[j].entity_id,
                LayerNodeKind::MidiClip,
                false,
            ),
    decreases m.len(),
{
    reveal(Seq::filter);
    if m.len() > 0 {
        let d = m.drop_last();
        lemma_clip_leaves_played(d, inst);
        let rest = clip_leaves(d, inst);
        let e = m.last();
        let f = d.filter(|e: (EntityId, MidiClipEntry)| e.1.instrument_id == Some(inst));
        if e.1.instrument_id == Some(inst) {
            let n = leaf(e.0, LayerNodeKind::MidiClip, false);
            assert(rest.push(n).map_values(|c: NodeView| c.entity_id) =~= rest.map_values(
                |c: NodeView| c.entity_id,
            ).push(e.0));
            assert(f.push(e).map_values(|e: (EntityId, MidiClipEntry)| e.0) =~= f.map_values(
                |e: (EntityId, MidiClipEntry)| e.0,
            ).push(e.0));
            assert forall|j: int| 0 <= j < rest.len() + 1 implies #[trigger] rest.push(n)[j] == leaf(
                rest.push(n)[j].entity_id,
                LayerNodeKind::MidiClip,
                false,
            ) by {
                if j < rest.len() {
                    assert(rest.push(n)[j] == rest[j]);
                }
            }
        }
    }
}

/// In the default tree, the first roots are the instruments, in map order,
/// each expanded and holding, in map order, a collapsed MIDI clip leaf for
/// every clip that it plays and for no other.
pub proof fn law_default_instruments_hold_their_clips(
    i: Seq<(EntityId, InstrumentEntry)>,
    m: Seq<(EntityId, MidiClipEntry)>,
    w: Seq<(EntityId, WaveformEntry)>,
    p: Seq<(EntityId, PluginBlockEntry)>,
    g: Seq<(EntityId, GroupEntry)>,
    k: int,
)
    requires
        0 <= k < i.len(),
    ensures
        default_tree(i, m, w, p, g).len() >= i.len(),
        ({
            let r = default_tree(i, m, w, p, g)[k];
            &&& r.entity_id == i[k].0
            &&& r.kind == LayerNodeKind::Instrument
            &&& r.expanded
            &&& r.children.map_values(|c: NodeView| c.entity_id) == m.filter(
                |e: (EntityId, MidiClipEntry)| e.1.instrument_id == Some(i[k].0),
            ).map_values(|e: (EntityId, MidiClipEntry)| e.0)
            &&& forall|j: int|
                0 <= j < r.children.len() ==> #[trigger] r.children[j] == leaf(
                    r.children[j].entity_id,
                    LayerNodeKind::MidiClip,
                    false,
                )
        }),
{
    let t = default_tree(i, m, w, p, g);
    let a = instrument_roots(i, m);
    assert(t == a + waveform_roots(w) + group_roots(g, i, m, w, p));
    assert(t[k] == a[k]);
    lemma_clip_leaves_played(m, i[k].0);
}

} // verus!
