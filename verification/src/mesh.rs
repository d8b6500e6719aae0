use vstd::prelude::*;
use std::marker::PhantomData;
use std::sync::Arc;
use crate::gpu::{GpuCached, ToGpu};
use crate::scene::SceneID;

verus! {

/// A stable handle to one mesh in one scene: the identity of the owning
/// scene, the slot index, and the generation the slot had when the mesh was
/// added. The type parameter ties the handle to the mesh type it refers to.
pub struct MeshID<M> {
    pub scene_id: SceneID,
    pub index: usize,
    pub generation: u64,
    pub _phantom: PhantomData<M>,
}

impl<M> MeshID<M> {
    pub fn new(scene_id: SceneID, index: usize, generation: u64) -> (id: Self)
        ensures
            id.scene_id == scene_id,
            id.index == index,
            id.generation == generation,
    {
        Self { scene_id, index, generation, _phantom: PhantomData }
    }
}

/// The drawable capability: given a rendering context, produce (or fetch
/// cached) GPU artifacts sufficient for one draw call. Implementors choose
/// what the context and the artifacts are.
pub trait MeshBase: Sized {
    type Context;

    type Artifacts;

    fn gpu_data(&mut self, ctx: &Self::Context) -> Self::Artifacts;
}

/// A mesh bundling a geometry description and a material description, each
/// behind its own lazy derivation cache.
pub struct Mesh<G, M> where G: ToGpu, M: ToGpu<Context = G::Context> {
    geometry: GpuCached<G>,
    material: GpuCached<M>,
}

impl<G, M> Mesh<G, M> where G: ToGpu, M: ToGpu<Context = G::Context> {
    /// The geometry cache.
    pub closed spec fn geometry(self) -> GpuCached<G> {
        self.geometry
    }

    /// The material cache.
    pub closed spec fn material(self) -> GpuCached<M> {
        self.material
    }

    pub open spec fn wf(self) -> bool {
        self.geometry().wf() && self.material().wf()
    }

    pub fn new(geometry: G, material: M) -> (m: Self)
        ensures
            m.wf(),
            m.geometry().base() == geometry,
            m.material().base() == material,
            m.geometry().artifact() is None,
            m.material().artifact() is None,
    {
        Self { geometry: GpuCached::new(geometry), material: GpuCached::new(material) }
    }

    /// Realize both artifacts against `ctx`, deriving each at most once for
    /// the lifetime of this mesh.
    pub fn realize(&mut self, ctx: &G::Context) -> (r: (Arc<G::Target>, Arc<M::Target>))
        ensures
            old(self).wf() ==> final(self).wf(),
            GpuCached::realized(old(self).geometry(), final(self).geometry(), r.0),
            GpuCached::realized(old(self).material(), final(self).material(), r.1),
    {
        (self.geometry.to_gpu(ctx), self.material.to_gpu(ctx))
    }
}

impl<G, M> MeshBase for Mesh<G, M> where G: ToGpu, M: ToGpu<Context = G::Context> {
    type Context = G::Context;

    type Artifacts = (Arc<G::Target>, Arc<M::Target>);

    fn gpu_data(&mut self, ctx: &G::Context) -> (Arc<G::Target>, Arc<M::Target>) {
        self.realize(ctx)
    }
}

} // verus!
