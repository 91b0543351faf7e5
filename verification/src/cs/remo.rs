//! The cutscene ("remo") manager.

use vstd::prelude::*;

verus! {

/// The cutscene manager.
pub struct CSRemoMan {
    unk00: [u8; 0x40],
    /// The cutscene playback state.
    pub state: i32,
}

} // verus!
