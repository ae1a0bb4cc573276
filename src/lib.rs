//! Mesh reconstruction and analysis over triangle soups: vertex welding,
//! indexed meshes, body counting, signed volume, a binary triangle-file codec
//! and a write-once result slot.
use vstd::prelude::*;

pub mod geometry;
pub mod weld;
pub mod mesh;
pub mod connectivity;
pub mod codec;
pub mod search;
pub mod slot;

verus! {

/// Hook of the rendering layer for model buffers. The renderer assembles its
/// vertex buffers itself from the triangle list, so there is nothing for the
/// library to build.
pub fn build_model_buffer() {
}

} // verus!
