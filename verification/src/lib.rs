//! Verified core of a declarative desktop UI runtime: the retained widget
//! tree, focus management, the editable text-field state machine and the
//! pure decision functions of the renderer and platform layers.
use vstd::prelude::*;

pub mod animation;
pub mod batch;
pub mod devtools;
pub mod event;
pub mod geometry;
pub mod layout;
pub mod platform;
pub mod render;
pub mod scene;
pub mod style;
pub mod text;
pub mod textbuf;
pub mod textinput;
pub mod theme;
pub mod tree;
pub mod upload;

verus! {
} // verus!
