pub mod gpu;
pub mod mesh;
pub mod renderer;
pub mod scene;

pub use mesh::{Mesh, MeshBase, MeshID};
pub use scene::{Scene, SceneError};

use vstd::prelude::*;

verus! {

/// A wgpu clear color is carried through the scene opaquely: the registry
/// stores it and hands it back in the frame plan, never inspecting it.
#[verifier::external_type_specification]
#[verifier::external_body]
pub struct ExColor(wgpu::Color);

} // verus!
