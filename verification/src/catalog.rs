//! The entities of a project, as the layer tree sees them: insertion-ordered
//! maps from identifier to the few fields that the tree reads, held in
//! `indexmap::IndexMap`s.
use vstd::prelude::*;
use indexmap::IndexMap;
use crate::EntityId;

verus! {

#[verifier::external_type_specification]
#[verifier::external_body]
#[verifier::reject_recursive_types(K)]
#[verifier::reject_recursive_types(V)]
#[verifier::reject_recursive_types(S)]
pub struct ExIndexMap<K, V, S>(IndexMap<K, V, S>);

/// What the layer tree reads of an instrument.
#[derive(Clone, Debug)]
pub struct InstrumentEntry {
    pub name: String,
    pub plugin_name: String,
}

/// What the layer tree reads of a MIDI clip.
#[derive(Clone, Debug)]
pub struct MidiClipEntry {
    /// The instrument that plays the clip, if any.
    pub instrument_id: Option<EntityId>,
    /// How many notes the clip holds.
    pub note_count: usize,
}

/// What the layer tree reads of a waveform.
#[derive(Clone, Debug)]
pub struct WaveformEntry {
    /// Orders waveforms by their vertical position on the canvas (smaller is
    /// higher up).
    pub y_order: u32,
    /// The file name of the audio data.
    pub audio_filename: String,
    /// The file name of the waveform itself.
    pub filename: String,
}

/// What the layer tree reads of a plugin block.
#[derive(Clone, Debug)]
pub struct PluginBlockEntry {
    pub plugin_name: String,
}

/// What the layer tree reads of a group.
#[derive(Clone, Debug)]
pub struct GroupEntry {
    pub name: String,
    /// Entity identifiers of the group's members, of any kind.
    pub member_ids: Vec<EntityId>,
    /// The effect chain that the group's audio goes through, if any.
    pub effect_chain_id: Option<EntityId>,
}

pub type Instruments = IndexMap<EntityId, InstrumentEntry>;

pub type MidiClips = IndexMap<EntityId, MidiClipEntry>;

pub type Waveforms = IndexMap<EntityId, WaveformEntry>;

pub type PluginBlocks = IndexMap<EntityId, PluginBlockEntry>;

pub type Groups = IndexMap<EntityId, GroupEntry>;

/// The entries of an instrument map, in their order.
pub uninterp spec fn instrument_entries(m: IndexMap<EntityId, InstrumentEntry>) -> Seq<(EntityId, InstrumentEntry)>;

/// The entries of a MIDI clip map, in their order.
pub uninterp spec fn midi_clip_entries(m: IndexMap<EntityId, MidiClipEntry>) -> Seq<(EntityId, MidiClipEntry)>;

/// The entries of a waveform map, in their order.
pub uninterp spec fn waveform_entries(m: IndexMap<EntityId, WaveformEntry>) -> Seq<(EntityId, WaveformEntry)>;

/// The entries of a plugin block map, in their order.
pub uninterp spec fn plugin_block_entries(m: IndexMap<EntityId, PluginBlockEntry>) -> Seq<(EntityId, PluginBlockEntry)>;

/// The entries of a group map, in their order.
pub uninterp spec fn group_entries(m: IndexMap<EntityId, GroupEntry>) -> Seq<(EntityId, GroupEntry)>;

/// Whether some entry of `s` has key `k`.
pub open spec fn has_key<V>(s: Seq<(EntityId, V)>, k: EntityId) -> bool {
    exists|i: int| 0 <= i < s.len() && s[i].0 == k
}

/// The value of the entry of `s` with key `k`.
pub open spec fn key_value<V>(s: Seq<(EntityId, V)>, k: EntityId) -> V {
    s[choose|j: int| 0 <= j < s.len() && s[j].0 == k].1
}

/// Entry `i` of `s` has key `k`, and no other entry has it.
pub open spec fn sole_key_at<V>(s: Seq<(EntityId, V)>, k: EntityId, i: int) -> bool {
    &&& 0 <= i < s.len()
    &&& s[i].0 == k
    &&& forall|j: int| 0 <= j < s.len() && j != i ==> s[j].0 != k
}

// `IndexMap::len`, `IndexMap::get_index` and `IndexMap::get` on each of the
// five maps. `len` counts the entries; `get_index` gives the entry at a
// position in insertion order, `None` past the end; `get` gives the value of
// the entry with a key, `None` when there is none. The source of these three
// methods (indexmap 2.14) shows that the map's keys are distinct, which the
// `get_index` and `get` contracts state of the key they return or look up.
// That holds as long as no key is changed in place through indexmap's
// `MutableKeys` trait, which its documentation calls a logic error; this
// crate never does so.

/// `IndexMap::len` on instruments: the number of entries.
#[verifier::external_body]
pub(crate) fn instruments_len(m: &Instruments) -> (r: usize)
    ensures
        r == instrument_entries(*m).len(),
{
    m.len()
}

/// `IndexMap::get_index` on instruments: the entry at position `i` in insertion
/// order, `None` past the end; no other entry has its key.
#[verifier::external_body]
pub(crate) fn instrument_at(m: &Instruments, i: usize) -> (r: Option<(&EntityId, &InstrumentEntry)>)
    ensures
        i < instrument_entries(*m).len() ==> r == Some(
            (&instrument_entries(*m)[i as int].0, &instrument_entries(*m)[i as int].1),
        ),
        i >= instrument_entries(*m).len() ==> r is None,
        r matches Some((k, v)) ==> sole_key_at(instrument_entries(*m), *k, i as int),
{
    m.get_index(i)
}

/// `IndexMap::get` on instruments: the value of the entry with key `k`, `None`
/// when no entry has it; no other entry has that key.
#[verifier::external_body]
pub(crate) fn instrument_get<'a>(m: &'a Instruments, k: &EntityId) -> (r: Option<&'a InstrumentEntry>)
    ensures
        r is None <==> !has_key(instrument_entries(*m), *k),
        r matches Some(v) ==> exists|i: int|
            sole_key_at(instrument_entries(*m), *k, i) && instrument_entries(*m)[i].1 == *v,
{
    m.get(k)
}

/// `IndexMap::len` on MIDI clips: the number of entries.
#[verifier::external_body]
pub(crate) fn midi_clips_len(m: &MidiClips) -> (r: usize)
    ensures
        r == midi_clip_entries(*m).len(),
{
    m.len()
}

/// `IndexMap::get_index` on MIDI clips: the entry at position `i` in insertion
/// order, `None` past the end; no other entry has its key.
#[verifier::external_body]
pub(crate) fn midi_clip_at(m: &MidiClips, i: usize) -> (r: Option<(&EntityId, &MidiClipEntry)>)
    ensures
        i < midi_clip_entries(*m).len() ==> r == Some(
            (&midi_clip_entries(*m)[i as int].0, &midi_clip_entries(*m)[i as int].1),
        ),
        i >= midi_clip_entries(*m).len() ==> r is None,
        r matches Some((k, v)) ==> sole_key_at(midi_clip_entries(*m), *k, i as int),
{
    m.get_index(i)
}

/// `IndexMap::get` on MIDI clips: the value of the entry with key `k`, `None`
/// when no entry has it; no other entry has that key.
#[verifier::external_body]
pub(crate) fn midi_clip_get<'a>(m: &'a MidiClips, k: &EntityId) -> (r: Option<&'a MidiClipEntry>)
    ensures
        r is None <==> !has_key(midi_clip_entries(*m), *k),
        r matches Some(v) ==> exists|i: int|
            sole_key_at(midi_clip_entries(*m), *k, i) && midi_clip_entries(*m)[i].1 == *v,
{
    m.get(k)
}

/// `IndexMap::len` on waveforms: the number of entries.
#[verifier::external_body]
pub(crate) fn waveforms_len(m: &Waveforms) -> (r: usize)
    ensures
        r == waveform_entries(*m).len(),
{
    m.len()
}

/// `IndexMap::get_index` on waveforms: the entry at position `i` in insertion
/// order, `None` past the end; no other entry has its key.
#[verifier::external_body]
pub(crate) fn waveform_at(m: &Waveforms, i: usize) -> (r: Option<(&EntityId, &WaveformEntry)>)
    ensures
        i < waveform_entries(*m).len() ==> r == Some(
            (&waveform_entries(*m)[i as int].0, &waveform_entries(*m)[i as int].1),
        ),
        i >= waveform_entries(*m).len() ==> r is None,
        r matches Some((k, v)) ==> sole_key_at(waveform_entries(*m), *k, i as int),
{
    m.get_index(i)
}

/// `IndexMap::get` on waveforms: the value of the entry with key `k`, `None`
/// when no entry has it; no other entry has that key.
#[verifier::external_body]
pub(crate) fn waveform_get<'a>(m: &'a Waveforms, k: &EntityId) -> (r: Option<&'a WaveformEntry>)
    ensures
        r is None <==> !has_key(waveform_entries(*m), *k),
        r matches Some(v) ==> exists|i: int|
            sole_key_at(waveform_entries(*m), *k, i) && waveform_entries(*m)[i].1 == *v,
{
    m.get(k)
}

/// `IndexMap::get` on plugin blocks: the value of the entry with key `k`, `None`
/// when no entry has it; no other entry has that key.
#[verifier::external_body]
pub(crate) fn plugin_block_get<'a>(m: &'a PluginBlocks, k: &EntityId) -> (r: Option<&'a PluginBlockEntry>)
    ensures
        r is None <==> !has_key(plugin_block_entries(*m), *k),
        r matches Some(v) ==> exists|i: int|
            sole_key_at(plugin_block_entries(*m), *k, i) && plugin_block_entries(*m)[i].1 == *v,
{
    m.get(k)
}

/// `IndexMap::len` on groups: the number of entries.
#[verifier::external_body]
pub(crate) fn groups_len(m: &Groups) -> (r: usize)
    ensures
        r == group_entries(*m).len(),
{
    m.len()
}

/// `IndexMap::get_index` on groups: the entry at position `i` in insertion
/// order, `None` past the end; no other entry has its key.
#[verifier::external_body]
pub(crate) fn group_at(m: &Groups, i: usize) -> (r: Option<(&EntityId, &GroupEntry)>)
    ensures
        i < group_entries(*m).len() ==> r == Some(
            (&group_entries(*m)[i as int].0, &group_entries(*m)[i as int].1),
        ),
        i >= group_entries(*m).len() ==> r is None,
        r matches Some((k, v)) ==> sole_key_at(group_entries(*m), *k, i as int),
{
    m.get_index(i)
}

/// `IndexMap::get` on groups: the value of the entry with key `k`, `None`
/// when no entry has it; no other entry has that key.
#[verifier::external_body]
pub(crate) fn group_get<'a>(m: &'a Groups, k: &EntityId) -> (r: Option<&'a GroupEntry>)
    ensures
        r is None <==> !has_key(group_entries(*m), *k),
        r matches Some(v) ==> exists|i: int|
            sole_key_at(group_entries(*m), *k, i) && group_entries(*m)[i].1 == *v,
{
    m.get(k)
}

} // verus!
