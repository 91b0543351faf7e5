//! Texture repositories. They are singletons of the game with no fields that
//! this library reads.

use vstd::prelude::*;

verus! {

/// The repository of TPF texture files.
pub struct TpfRepository {}

/// The repository of textures.
pub struct TexRepository {}

/// The repository of textures that the Scaleform user interface uses.
pub struct ScaleformTexRepository {}

} // verus!
