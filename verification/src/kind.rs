//! The kinds of layer nodes and their textual tags.
use vstd::prelude::*;
use crate::text::text_eq;

verus! {

/// What a layer node stands for.
#[derive(Clone, Copy, Debug, PartialEq, Eq, Structural)]
pub enum LayerNodeKind {
    Instrument,
    MidiClip,
    Waveform,
    PluginBlock,
    TextNote,
    Group,
}

/// The tag under which a kind is stored.
pub open spec fn kind_tag(k: LayerNodeKind) -> Seq<char> {
    match k {
        LayerNodeKind::Instrument => "instrument"@,
        LayerNodeKind::MidiClip => "midi_clip"@,
        LayerNodeKind::Waveform => "waveform"@,
        LayerNodeKind::PluginBlock => "plugin_block"@,
        LayerNodeKind::TextNote => "text_note"@,
        LayerNodeKind::Group => "group"@,
    }
}

/// The kind whose tag is `t`, if any.
pub open spec fn kind_of_tag(t: Seq<char>) -> Option<LayerNodeKind> {
    if t == "instrument"@ {
        Some(LayerNodeKind::Instrument)
    } else if t == "midi_clip"@ {
        Some(LayerNodeKind::MidiClip)
    } else if t == "waveform"@ {
        Some(LayerNodeKind::Waveform)
    } else if t == "plugin_block"@ {
        Some(LayerNodeKind::PluginBlock)
    } else if t == "text_note"@ {
        Some(LayerNodeKind::TextNote)
    } else if t == "group"@ {
        Some(LayerNodeKind::Group)
    } else {
        None
    }
}

impl LayerNodeKind {
    /// The tag under which this kind is stored.
    pub fn tag(self) -> (r: &'static str)
        ensures
            r@ == kind_tag(self),
    {
        match self {
            LayerNodeKind::Instrument => "instrument",
            LayerNodeKind::MidiClip => "midi_clip",
            LayerNodeKind::Waveform => "waveform",
            LayerNodeKind::PluginBlock => "plugin_block",
            LayerNodeKind::TextNote => "text_note",
            LayerNodeKind::Group => "group",
        }
    }

    /// The kind whose tag is `s`; `None` for any other text.
    pub fn from_tag(s: &str) -> (r: Option<LayerNodeKind>)
        ensures
            r == kind_of_tag(s@),
    {
        if text_eq(s, "instrument") {
            Some(LayerNodeKind::Instrument)
        } else if text_eq(s, "midi_clip") {
            Some(LayerNodeKind::MidiClip)
        } else if text_eq(s, "waveform") {
            Some(LayerNodeKind::Waveform)
        } else if text_eq(s, "plugin_block") {
            Some(LayerNodeKind::PluginBlock)
        } else if text_eq(s, "text_note") {
            Some(LayerNodeKind::TextNote)
        } else if text_eq(s, "group") {
            Some(LayerNodeKind::Group)
        } else {
            None
        }
    }
}

/// Reading a kind back from its tag gives the kind, and a tag is read back
/// only as the kind that it is the tag of.
pub proof fn lemma_tag_round_trip(k: LayerNodeKind, t: Seq<char>)
    ensures
        kind_of_tag(kind_tag(k)) == Some(k),
        kind_of_tag(t) == Some(k) ==> t == kind_tag(k),
{
    reveal_strlit("instrument");
    reveal_strlit("midi_clip");
    reveal_strlit("waveform");
    reveal_strlit("plugin_block");
    reveal_strlit("text_note");
    reveal_strlit("group");
    // The six tags already differ in their first character.
    assert("instrument"@[0] == 'i');
    assert("midi_clip"@[0] == 'm');
    assert("waveform"@[0] == 'w');
    assert("plugin_block"@[0] == 'p');
    assert("text_note"@[0] == 't');
    assert("group"@[0] == 'g');
}

} // verus!
