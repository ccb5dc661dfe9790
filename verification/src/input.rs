//! When the computer keyboard may play notes.
use vstd::prelude::*;

verus! {

/// What currently takes keyboard input away from the canvas.
#[derive(Clone, Copy, Debug, Default)]
pub struct InputFocus {
    pub command_palette_open: bool,
    pub settings_open: bool,
    pub plugin_editor_open: bool,
    pub context_menu_open: bool,
    pub editing_component: bool,
    pub editing_midi_clip: bool,
    pub editing_bpm: bool,
    pub editing_effect_name: bool,
    pub editing_waveform_name: bool,
    pub editing_volume: bool,
    pub editing_sample_bpm: bool,
    pub editing_pitch: bool,
}

impl InputFocus {
    /// Whether nothing takes keyboard input away from the canvas.
    pub open spec fn is_free(&self) -> bool {
        !self.command_palette_open && !self.settings_open && !self.plugin_editor_open
            && !self.context_menu_open && !self.editing_component && !self.editing_midi_clip
            && !self.editing_bpm && !self.editing_effect_name && !self.editing_waveform_name
            && !self.editing_volume && !self.editing_sample_bpm && !self.editing_pitch
    }

    /// The computer keyboard may play notes only when no palette, window,
    /// menu or text entry has the keyboard.
    pub fn computer_midi_keyboard_guards_ok(&self) -> (r: bool)
        ensures
            r == self.is_free(),
    {
        !self.command_palette_open && !self.settings_open && !self.plugin_editor_open
            && !self.context_menu_open && !self.editing_component && !self.editing_midi_clip
            && !self.editing_bpm && !self.editing_effect_name && !self.editing_waveform_name
            && !self.editing_volume && !self.editing_sample_bpm && !self.editing_pitch
    }
}

} // verus!
