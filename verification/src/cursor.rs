//! Labels for the cursor-tracking systems. The engine-facing
//! application crate implements the engine's plugin and label traits on
//! its own copies of these types; the library only fixes their names
//! and identity.

use vstd::prelude::*;

verus! {

/// The cursor plugin's system labels: its startup step and the per-frame
/// step that tracks the pointer.
#[derive(Debug, Clone, Copy, Eq, PartialEq, Hash)]
pub enum CursorPluginSystem {
    Setup,
    CursorState,
}

/// Marker for the cursor-tracking plugin.
pub struct CursorPlugin;

} // verus!
