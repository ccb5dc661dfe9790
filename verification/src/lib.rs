//! The layer tree of a canvas-based audio workstation: the tree of layer
//! nodes shown in the layers panel, its editing operations (reordering,
//! expanding, drag-and-drop), its flat storage form, its synchronisation with
//! the entities of a project, and the undo/redo history of the canvas.
use vstd::prelude::*;

pub mod kind;
pub mod tree;
pub mod storage;
pub mod catalog;
pub mod sync;
pub mod browser;
pub mod history;
pub mod export;
pub mod input;
pub mod text;

verus! {

/// Identifier of a canvas entity (instrument, clip, waveform, plugin block,
/// text note or group).
pub type EntityId = u64;

} // verus!
