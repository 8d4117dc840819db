//! State shared between frames of the editor's interface.
use vstd::prelude::*;

verus! {

/// Which parts of the interface are open.
#[derive(Clone, Copy, Debug, PartialEq, Eq, Structural)]
pub struct GUIInfo {
    pub new_menu_opened: bool,
}

} // verus!
