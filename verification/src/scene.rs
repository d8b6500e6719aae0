use vstd::prelude::*;
use vstd::pervasive::unreached;
use crate::mesh::MeshID;

verus! {

/// Identity of a scene, distinct for every live scene.
pub type SceneID = u16;

/// Why a handle could not be dereferenced against a scene.
#[derive(Debug, Clone, Copy, PartialEq, Eq, Structural)]
pub enum SceneError {
    /// The handle was issued by a different scene.
    ForeignHandle,
    /// The handle's slot index lies beyond the slot table.
    NoSuchSlot,
    /// The handle's slot is tombstoned.
    VacantSlot,
    /// The handle's slot was vacated and reused since the handle was issued.
    StaleHandle,
}

/// An identity-stable registry of meshes behind typed handles.
///
/// Meshes live in slots; removing one leaves a tombstone whose index goes to
/// a free list and is reused, lowest index first, by a later addition. Each
/// slot carries a generation that is bumped on removal, so a handle issued
/// for an earlier occupant of a reused slot is recognized as stale.
pub struct Scene<M> {
    id: SceneID,
    background: wgpu::Color,
    meshes: Vec<Option<M>>,
    generations: Vec<u64>,
    mesh_recycle_ids: Vec<usize>,
    adds: Ghost<nat>,
    removes: Ghost<nat>,
}

impl<M> Scene<M> {
    /// The identity this scene stamps into every handle it issues.
    pub closed spec fn id(self) -> SceneID {
        self.id
    }

    /// The clear color used for the single render pass of a frame.
    pub closed spec fn background(self) -> wgpu::Color {
        self.background
    }

    /// The slot table: `None` marks a tombstoned slot.
    pub closed spec fn meshes(self) -> Seq<Option<M>> {
        self.meshes@
    }

    /// The generation of each slot, bumped when the slot is vacated.
    pub closed spec fn generations(self) -> Seq<u64> {
        self.generations@
    }

    /// The free list: tombstoned slot indices, strictly descending, so the
    /// lowest reusable index sits at the end.
    pub closed spec fn recycle(self) -> Seq<usize> {
        self.mesh_recycle_ids@
    }

    /// How many meshes have been added over the scene's lifetime.
    pub closed spec fn adds(self) -> nat {
        self.adds@
    }

    /// How many meshes have been removed over the scene's lifetime.
    pub closed spec fn removes(self) -> nat {
        self.removes@
    }

    /// The logical number of meshes: occupied slots, not table length.
    pub open spec fn spec_len(self) -> int {
        self.meshes().len() - self.recycle().len()
    }

    /// Slot count invariant: every slot has a generation; the free list
    /// holds exactly the tombstoned slot indices, each once, in strictly
    /// descending order; and the logical count equals additions minus
    /// removals.
    pub open spec fn wf(self) -> bool {
        &&& self.generations().len() == self.meshes().len()
        &&& forall|k: int|
            0 <= k < self.recycle().len() ==> (#[trigger] self.recycle()[k]) < self.meshes().len()
        &&& forall|k1: int, k2: int|
            #![trigger self.recycle()[k1], self.recycle()[k2]]
            0 <= k1 < k2 < self.recycle().len() ==> self.recycle()[k1] > self.recycle()[k2]
        &&& forall|i: int|
            0 <= i < self.meshes().len() ==> ((#[trigger] self.meshes()[i]) is None
                <==> self.recycle().contains(i as usize))
        &&& self.adds() + self.recycle().len() == self.removes() + self.meshes().len()
    }

    /// A handle that may be dereferenced against this scene: it was issued
    /// by this scene, its slot is occupied, and its generation is current.
    pub open spec fn valid_handle(self, id: MeshID<M>) -> bool {
        &&& id.scene_id == self.id()
        &&& (id.index as int) < self.meshes().len()
        &&& self.meshes()[id.index as int] is Some
        &&& id.generation == self.generations()[id.index as int]
    }

    pub fn new(id: SceneID, background: wgpu::Color) -> (s: Self)
        ensures
            s.wf(),
            s.id() == id,
            s.background() == background,
            s.meshes() == Seq::<Option<M>>::empty(),
            s.generations() == Seq::<u64>::empty(),
            s.recycle() == Seq::<usize>::empty(),
            s.adds() == 0,
            s.removes() == 0,
    {
        Self {
            id,
            background,
            meshes: Vec::new(),
            generations: Vec::new(),
            mesh_recycle_ids: Vec::new(),
            adds: Ghost(0nat),
            removes: Ghost(0nat),
        }
    }

    pub fn set_background(&mut self, background: wgpu::Color)
        ensures
            old(self).wf() ==> final(self).wf(),
            final(self).background() == background,
            final(self).id() == old(self).id(),
            final(self).meshes() == old(self).meshes(),
            final(self).generations() == old(self).generations(),
            final(self).recycle() == old(self).recycle(),
            final(self).adds() == old(self).adds(),
            final(self).removes() == old(self).removes(),
    {
        self.background = background;
    }

    /// Relation between the scene before and after adding `mesh`, which
    /// yielded handle `id`: the lowest tombstoned slot index is reused if
    /// one exists, otherwise the table grows by one slot of generation zero.
    pub open spec fn added(pre: Self, post: Self, mesh: M, id: MeshID<M>) -> bool {
        &&& id.scene_id == pre.id()
        &&& id.index as int == if pre.recycle().len() > 0 {
            pre.recycle().last() as int
        } else {
            pre.meshes().len() as int
        }
        &&& id.generation == post.generations()[id.index as int]
        &&& post.id() == pre.id()
        &&& post.background() == pre.background()
        &&& if pre.recycle().len() > 0 {
            &&& post.meshes() == pre.meshes().update(id.index as int, Some(mesh))
            &&& post.generations() == pre.generations()
            &&& post.recycle() == pre.recycle().drop_last()
        } else {
            &&& post.meshes() == pre.meshes().push(Some(mesh))
            &&& post.generations() == pre.generations().push(0u64)
            &&& post.recycle() == pre.recycle()
        }
        &&& post.adds() == pre.adds() + 1
        &&& post.removes() == pre.removes()
    }

    /// Add a mesh, storing it in the lowest free slot if any, else in a new
    /// slot at the end, and hand back a handle to it.
    pub fn add_mesh(&mut self, mesh: M) -> (id: MeshID<M>)
        requires
            old(self).wf(),
        ensures
            final(self).wf(),
            Self::added(*old(self), *final(self), mesh, id),
    {
        self.adds = Ghost(self.adds@ + 1);
        match self.mesh_recycle_ids.pop() {
            Some(index) => {
                proof {
                    let rec = old(self).recycle();
                    assert(rec[rec.len() - 1] == index);
                    assert(rec.contains(index));
                    assert(old(self).meshes()[index as int] is None);
                    assert forall|k: int| 0 <= k < rec.len() - 1 implies #[trigger] rec[k]
                        != index by {
                        assert(rec[k] > rec[rec.len() - 1]);
                    }
                }
                self.meshes[index] = Some(mesh);
                let generation = self.generations[index];
                proof {
                    let rec = old(self).recycle();
                    assert(self.mesh_recycle_ids@ == rec.drop_last());
                    assert forall|i: int|
                        0 <= i < self.meshes@.len() implies ((#[trigger] self.meshes@[i]) is None
                        <==> self.mesh_recycle_ids@.contains(i as usize)) by {
                        if i == index as int {
                            assert forall|k: int|
                                0 <= k < rec.drop_last().len() implies #[trigger] rec.drop_last()[k]
                                != index by {
                                assert(rec[k] > rec[rec.len() - 1]);
                            }
                        } else {
                            assert(self.meshes.len() == self.meshes@.len());
                            assert((i as usize) as int == i);
                            if self.meshes@[i] is None {
                                assert(old(self).meshes()[i] is None);
                                let k = choose|k: int| 0 <= k < rec.len() && rec[k] == i as usize;
                                assert(rec[k] as int == i);
                                assert(rec[k] != index);
                                assert(k < rec.len() - 1);
                                assert(rec.drop_last()[k] == i as usize);
                            }
                            if self.mesh_recycle_ids@.contains(i as usize) {
                                let k = choose|k: int|
                                    0 <= k < rec.drop_last().len() && rec.drop_last()[k]
                                        == i as usize;
                                assert(rec[k] == i as usize);
                                assert(rec.contains(i as usize));
                            }
                        }
                    }
                }
                MeshID::new(self.id, index, generation)
            },
            None => {
                let index = self.meshes.len();
                self.meshes.push(Some(mesh));
                self.generations.push(0);
                proof {
                    assert forall|i: int|
                        0 <= i < self.meshes@.len() implies ((#[trigger] self.meshes@[i]) is None
                        <==> self.mesh_recycle_ids@.contains(i as usize)) by {
                        if i == index as int {
                            assert forall|k: int|
                                0 <= k < self.mesh_recycle_ids@.len() implies #[trigger] self.mesh_recycle_ids@[k]
                                != index by {
                                assert(self.mesh_recycle_ids@[k] < index);
                            }
                        } else {
                            assert(self.meshes@[i] == old(self).meshes()[i]);
                        }
                    }
                }
                MeshID::new(self.id, index, 0)
            },
        }
    }

    /// Relation between the scene before and after removing the mesh that
    /// `id` points at: the slot is tombstoned, its generation is bumped,
    /// and its index joins the free list at its ordered place.
    pub open spec fn removed(pre: Self, post: Self, id: MeshID<M>) -> bool {
        &&& post.id() == pre.id()
        &&& post.background() == pre.background()
        &&& post.meshes() == pre.meshes().update(id.index as int, None::<M>)
        &&& post.generations() == pre.generations().update(
            id.index as int,
            bumped(pre.generations()[id.index as int]),
        )
        &&& post.recycle() == insert_desc(pre.recycle(), id.index)
        &&& post.adds() == pre.adds()
        &&& post.removes() == pre.removes() + 1
    }

    /// Remove the mesh `mesh_id` points at, tombstoning its slot for reuse.
    pub fn remove_mesh(&mut self, mesh_id: MeshID<M>)
        requires
            old(self).wf(),
            old(self).valid_handle(mesh_id),
        ensures
            final(self).wf(),
            Self::removed(*old(self), *final(self), mesh_id),
    {
        let _ = self.remove_at(mesh_id.index);
    }

    /// Remove a handle's mesh if the handle is valid, giving ownership of
    /// the mesh back; misuse is reported as the same typed errors a lookup
    /// gives, with the scene untouched.
    pub fn try_remove_mesh(&mut self, mesh_id: &MeshID<M>) -> (r: Result<M, SceneError>)
        requires
            old(self).wf(),
        ensures
            final(self).wf(),
            r is Ok <==> old(self).valid_handle(*mesh_id),
            match r {
                Ok(m) => Some(m) == old(self).meshes()[mesh_id.index as int] && Self::removed(
                    *old(self),
                    *final(self),
                    *mesh_id,
                ),
                Err(SceneError::ForeignHandle) => *final(self) == *old(self) && mesh_id.scene_id
                    != old(self).id(),
                Err(SceneError::NoSuchSlot) => *final(self) == *old(self) && mesh_id.scene_id
                    == old(self).id() && mesh_id.index as int >= old(self).meshes().len(),
                Err(SceneError::VacantSlot) => *final(self) == *old(self) && mesh_id.scene_id
                    == old(self).id() && (mesh_id.index as int) < old(self).meshes().len() && old(
                    self,
                ).meshes()[mesh_id.index as int] is None,
                Err(SceneError::StaleHandle) => *final(self) == *old(self) && mesh_id.scene_id
                    == old(self).id() && (mesh_id.index as int) < old(self).meshes().len() && old(
                    self,
                ).meshes()[mesh_id.index as int] is Some && mesh_id.generation != old(
                    self,
                ).generations()[mesh_id.index as int],
            },
    {
        if mesh_id.scene_id != self.id {
            return Err(SceneError::ForeignHandle);
        }
        if mesh_id.index >= self.meshes.len() {
            return Err(SceneError::NoSuchSlot);
        }
        let occupied = self.meshes[mesh_id.index].is_some();
        if !occupied {
            return Err(SceneError::VacantSlot);
        }
        if mesh_id.generation != self.generations[mesh_id.index] {
            return Err(SceneError::StaleHandle);
        }
        Ok(self.remove_at(mesh_id.index))
    }

    /// Vacate the occupied slot `index`: the shared tail of both removal
    /// entry points.
    fn remove_at(&mut self, index: usize) -> (m: M)
        requires
            old(self).wf(),
            (index as int) < old(self).meshes().len(),
            old(self).meshes()[index as int] is Some,
        ensures
            final(self).wf(),
            Some(m) == old(self).meshes()[index as int],
            final(self).id() == old(self).id(),
            final(self).background() == old(self).background(),
            final(self).meshes() == old(self).meshes().update(index as int, None::<M>),
            final(self).generations() == old(self).generations().update(
                index as int,
                bumped(old(self).generations()[index as int]),
            ),
            final(self).recycle() == insert_desc(old(self).recycle(), index),
            final(self).adds() == old(self).adds(),
            final(self).removes() == old(self).removes() + 1,
    {
        let slot = &mut self.meshes[index];
        let taken = slot.take();
        let m = match taken {
            Some(m) => m,
            None => unreached(),
        };
        let g = self.generations[index];
        self.generations[index] = if g == u64::MAX {
            g
        } else {
            g + 1
        };
        self.removes = Ghost(self.removes@ + 1);

        let ghost rec0 = self.mesh_recycle_ids@;
        let mut j = self.mesh_recycle_ids.len();
        while j > 0 && self.mesh_recycle_ids[j - 1] < index
            invariant
                j <= self.mesh_recycle_ids@.len(),
                self.mesh_recycle_ids@ == rec0,
                forall|k: int| j <= k < rec0.len() ==> (#[trigger] rec0[k]) < index,
            decreases j,
        {
            j -= 1;
        }
        proof {
            if j > 0 {
                assert(rec0[j - 1] >= index);
                if rec0[j - 1] == index {
                    assert(rec0.contains(index));
                    assert(old(self).meshes()[index as int] is None);
                    assert(false);
                }
            }
            assert forall|k: int| 0 <= k < j implies (#[trigger] rec0[k]) > index by {
                if k < j - 1 {
                    assert(rec0[k] > rec0[j - 1]);
                }
            }
        }
        self.mesh_recycle_ids.insert(j, index);
        proof {
            lemma_insert_desc_position(rec0, index, j as int);
            let rec1 = self.mesh_recycle_ids@;
            assert(rec1 == rec0.insert(j as int, index));
            assert(rec1 == insert_desc(rec0, index));
            let n = self.meshes@.len() as int;
            assert forall|k1: int, k2: int|
                #![trigger rec1[k1], rec1[k2]]
                0 <= k1 < k2 < rec1.len() implies rec1[k1] > rec1[k2] by {
                let jj = j as int;
                if k2 < jj {
                    assert(rec1[k1] == rec0[k1] && rec1[k2] == rec0[k2]);
                } else if k1 > jj {
                    assert(rec1[k1] == rec0[k1 - 1] && rec1[k2] == rec0[k2 - 1]);
                } else if k1 == jj {
                    assert(rec1[k1] == index && rec1[k2] == rec0[k2 - 1]);
                } else if k2 == jj {
                    assert(rec1[k1] == rec0[k1] && rec1[k2] == index);
                } else {
                    assert(rec1[k1] == rec0[k1] && rec1[k2] == rec0[k2 - 1]);
                    assert(rec0[k1] > index && rec0[k2 - 1] < index);
                }
            }
            assert forall|i: int|
                0 <= i < n implies ((#[trigger] self.meshes@[i]) is None <==> rec1.contains(
                i as usize,
            )) by {
                assert(self.meshes.len() == self.meshes@.len());
                assert((i as usize) as int == i);
                if i == index as int {
                    assert(rec1[j as int] == index);
                    assert(rec1.contains(index));
                } else {
                    if self.meshes@[i] is None {
                        assert(old(self).meshes()[i] is None);
                        let k = choose|k: int| 0 <= k < rec0.len() && rec0[k] == i as usize;
                        if k < j as int {
                            assert(rec1[k] == i as usize);
                        } else {
                            assert(rec1[k + 1] == i as usize);
                        }
                        assert(rec1.contains(i as usize));
                    }
                    if rec1.contains(i as usize) {
                        let k = choose|k: int| 0 <= k < rec1.len() && rec1[k] == i as usize;
                        assert(k != j as int);
                        if k < j as int {
                            assert(rec0[k] == i as usize);
                        } else {
                            assert(rec0[k - 1] == i as usize);
                        }
                        assert(rec0.contains(i as usize));
                        assert(old(self).meshes()[i] is None);
                    }
                }
            }
            assert forall|k: int| 0 <= k < rec1.len() implies (#[trigger] rec1[k])
                < self.meshes@.len() by {
                if k < j as int {
                    assert(rec1[k] == rec0[k]);
                } else if k == j as int {
                    assert(rec1[k] == index);
                } else {
                    assert(rec1[k] == rec0[k - 1]);
                }
            }
        }
        m
    }

    /// Look a handle up, reporting misuse as a typed error instead of
    /// failing: exactly the valid handles are answered with `Ok`.
    pub fn try_get_mesh_ref(&self, mesh: &MeshID<M>) -> (r: Result<&M, SceneError>)
        requires
            self.wf(),
        ensures
            r is Ok <==> self.valid_handle(*mesh),
            match r {
                Ok(m) => *m == self.meshes()[mesh.index as int].unwrap(),
                Err(SceneError::ForeignHandle) => mesh.scene_id != self.id(),
                Err(SceneError::NoSuchSlot) => mesh.scene_id == self.id() && mesh.index as int
                    >= self.meshes().len(),
                Err(SceneError::VacantSlot) => mesh.scene_id == self.id() && (mesh.index as int)
                    < self.meshes().len() && self.meshes()[mesh.index as int] is None,
                Err(SceneError::StaleHandle) => mesh.scene_id == self.id() && (mesh.index as int)
                    < self.meshes().len() && self.meshes()[mesh.index as int] is Some
                    && mesh.generation != self.generations()[mesh.index as int],
            },
    {
        if mesh.scene_id != self.id {
            return Err(SceneError::ForeignHandle);
        }
        if mesh.index >= self.meshes.len() {
            return Err(SceneError::NoSuchSlot);
        }
        match &self.meshes[mesh.index] {
            None => Err(SceneError::VacantSlot),
            Some(m) => {
                if mesh.generation != self.generations[mesh.index] {
                    Err(SceneError::StaleHandle)
                } else {
                    Ok(m)
                }
            },
        }
    }

    /// Borrow the mesh a valid handle points at.
    pub fn get_mesh_ref(&self, mesh: &MeshID<M>) -> (r: &M)
        requires
            self.wf(),
            self.valid_handle(*mesh),
        ensures
            *r == self.meshes()[mesh.index as int].unwrap(),
    {
        match &self.meshes[mesh.index] {
            Some(m) => m,
            None => unreached(),
        }
    }

    /// Mutably borrow the mesh a valid handle points at; the slot keeps the
    /// mesh, under whatever value the caller leaves behind.
    pub fn get_mesh_mut(&mut self, mesh: &MeshID<M>) -> (r: &mut M)
        requires
            old(self).wf(),
            old(self).valid_handle(*mesh),
        ensures
            *r == old(self).meshes()[mesh.index as int].unwrap(),
            final(self).meshes() == old(self).meshes().update(
                mesh.index as int,
                Some(*final(r)),
            ),
            final(self).id() == old(self).id(),
            final(self).background() == old(self).background(),
            final(self).generations() == old(self).generations(),
            final(self).recycle() == old(self).recycle(),
            final(self).adds() == old(self).adds(),
            final(self).removes() == old(self).removes(),
            final(self).wf(),
    {
        match &mut self.meshes[mesh.index] {
            Some(m) => m,
            None => unreached(),
        }
    }

    /// The logical number of meshes currently in the scene.
    pub fn meshes_len(&self) -> (n: usize)
        requires
            self.wf(),
        ensures
            n as int == self.spec_len(),
    {
        proof {
            lemma_descending_all_below(self.recycle(), self.meshes().len() as int);
        }
        self.meshes.len() - self.mesh_recycle_ids.len()
    }
}

/// Everything one frame draws: the clear color, and for every occupied
/// slot, in ascending slot order, the realized artifacts of its mesh.
/// `slots[k]` is the slot whose mesh produced `draws[k]`.
pub struct FramePlan<A> {
    pub background: wgpu::Color,
    pub slots: Vec<usize>,
    pub draws: Vec<A>,
}

/// The indices of the occupied slots of `s`, in ascending order.
pub open spec fn occupied_indices<M>(s: Seq<Option<M>>) -> Seq<usize>
    decreases s.len(),
{
    if s.len() == 0 {
        Seq::empty()
    } else if s.last() is Some {
        occupied_indices(s.drop_last()).push((s.len() - 1) as usize)
    } else {
        occupied_indices(s.drop_last())
    }
}

/// Draw ordering: the occupied indices are strictly ascending, point only
/// at occupied slots, and cover every occupied slot.
pub proof fn lemma_draw_order<M>(s: Seq<Option<M>>)
    requires
        s.len() <= usize::MAX,
    ensures
        forall|k1: int, k2: int|
            #![trigger occupied_indices(s)[k1], occupied_indices(s)[k2]]
            0 <= k1 < k2 < occupied_indices(s).len() ==> occupied_indices(s)[k1]
                < occupied_indices(s)[k2],
        forall|k: int|
            0 <= k < occupied_indices(s).len() ==> ((#[trigger] occupied_indices(s)[k]) as int)
                < s.len(),
        forall|k: int|
            0 <= k < occupied_indices(s).len() ==> (s[(#[trigger] occupied_indices(s)[k]) as int]
                is Some),
        forall|i: int|
            0 <= i < s.len() && s[i] is Some ==> occupied_indices(s).contains(i as usize),
    decreases s.len(),
{
    if s.len() > 0 {
        lemma_draw_order(s.drop_last());
        let pre = occupied_indices(s.drop_last());
        let occ = occupied_indices(s);
        assert(s.drop_last().len() == s.len() - 1);
        assert forall|k: int|
            0 <= k < occ.len() implies ((#[trigger] occ[k]) as int) < s.len() && s[occ[k] as int]
            is Some by {
            if s.last() is Some && k == occ.len() - 1 {
                assert(occ[k] == (s.len() - 1) as usize);
            } else {
                assert(occ[k] == pre[k]);
                assert((pre[k] as int) < s.drop_last().len());
                assert(s.drop_last()[pre[k] as int] is Some);
                assert(s[pre[k] as int] == s.drop_last()[pre[k] as int]);
            }
        }
        assert forall|k1: int, k2: int|
            #![trigger occ[k1], occ[k2]]
            0 <= k1 < k2 < occ.len() implies occ[k1] < occ[k2] by {
            if s.last() is Some && k2 == occ.len() - 1 {
                assert(occ[k1] == pre[k1]);
                assert((pre[k1] as int) < s.drop_last().len());
                assert(occ[k2] == (s.len() - 1) as usize);
            } else {
                assert(occ[k1] == pre[k1] && occ[k2] == pre[k2]);
            }
        }
        assert forall|i: int| 0 <= i < s.len() && s[i] is Some implies occ.contains(
            i as usize,
        ) by {
            if i < s.len() - 1 {
                assert(s.drop_last()[i] is Some);
                let k = choose|k: int| 0 <= k < pre.len() && pre[k] == i as usize;
                assert(occ[k] == i as usize);
            } else {
                assert(occ[occ.len() - 1] == i as usize);
            }
        }
    }
}

/// A sequence `r` that lists, strictly descending, exactly the `None`
/// positions of `s` accounts for every slot `occupied_indices` skips.
proof fn lemma_occupied_complement<M>(s: Seq<Option<M>>, r: Seq<usize>)
    requires
        s.len() <= usize::MAX,
        forall|k: int| 0 <= k < r.len() ==> (#[trigger] r[k]) < s.len(),
        forall|k1: int, k2: int|
            #![trigger r[k1], r[k2]]
            0 <= k1 < k2 < r.len() ==> r[k1] > r[k2],
        forall|i: int|
            0 <= i < s.len() ==> ((#[trigger] s[i]) is None <==> r.contains(i as usize)),
    ensures
        occupied_indices(s).len() + r.len() == s.len(),
    decreases s.len(),
{
    if s.len() == 0 {
        if r.len() > 0 {
            assert(r[0] < 0);
        }
    } else {
        let s1 = s.drop_last();
        let n = s.len() as int;
        if s.last() is Some {
            assert(!r.contains((n - 1) as usize));
            assert forall|k: int| 0 <= k < r.len() implies (#[trigger] r[k]) < s1.len() by {
                assert(r[k] as int != n - 1);
            }
            assert forall|i: int|
                0 <= i < s1.len() implies ((#[trigger] s1[i]) is None <==> r.contains(
                i as usize,
            )) by {
                assert(s1[i] == s[i]);
            }
            lemma_occupied_complement(s1, r);
        } else {
            assert(s[n - 1] is None);
            assert(r.contains((n - 1) as usize));
            let k0 = choose|k: int| 0 <= k < r.len() && r[k] == (n - 1) as usize;
            assert(r[0] >= r[k0]);
            assert(r[0] == (n - 1) as usize);
            let r1 = r.subrange(1, r.len() as int);
            assert forall|k: int| 0 <= k < r1.len() implies (#[trigger] r1[k]) < s1.len() by {
                assert(r1[k] == r[k + 1]);
                assert(r[0] > r[k + 1]);
            }
            assert forall|k1: int, k2: int|
                #![trigger r1[k1], r1[k2]]
                0 <= k1 < k2 < r1.len() implies r1[k1] > r1[k2] by {
                assert(r[k1 + 1] > r[k2 + 1]);
            }
            assert forall|i: int|
                0 <= i < s1.len() implies ((#[trigger] s1[i]) is None <==> r1.contains(
                i as usize,
            )) by {
                assert(s1[i] == s[i]);
                assert((i as usize) as int == i);
                if s1[i] is None {
                    let k = choose|k: int| 0 <= k < r.len() && r[k] == i as usize;
                    assert(r[k] as int == i);
                    assert(k != 0);
                    assert(r1[k - 1] == i as usize);
                    assert(r1.contains(i as usize));
                }
                if r1.contains(i as usize) {
                    let k = choose|k: int| 0 <= k < r1.len() && r1[k] == i as usize;
                    assert(r[k + 1] == i as usize);
                    assert(r.contains(i as usize));
                }
            }
            lemma_occupied_complement(s1, r1);
        }
    }
}

/// One frame draws every live mesh: the number of draw slots in a plan is
/// exactly the scene's logical mesh count.
pub proof fn lemma_plan_covers_scene<M>(s: Scene<M>)
    requires
        s.wf(),
    ensures
        occupied_indices(s.meshes()).len() == s.spec_len(),
{
    assert(s.meshes.len() == s.meshes@.len());
    lemma_occupied_complement(s.meshes(), s.recycle());
}

/// The generation a slot gets when it is vacated: one more than before,
/// saturating so the bump is total.
pub open spec fn bumped(g: u64) -> u64 {
    if g == u64::MAX {
        g
    } else {
        (g + 1) as u64
    }
}

/// `s` with `v` placed so that a strictly descending sequence stays
/// strictly descending.
pub open spec fn insert_desc(s: Seq<usize>, v: usize) -> Seq<usize>
    decreases s.len(),
{
    if s.len() == 0 {
        seq![v]
    } else if v < s.last() {
        s.push(v)
    } else {
        insert_desc(s.drop_last(), v).push(s.last())
    }
}

impl<M: crate::mesh::MeshBase> Scene<M> {
    /// Plan one frame: realize the artifacts of every occupied slot in
    /// ascending slot order (filling each mesh's caches on the first
    /// frame), under the current background clear color. The scene keeps
    /// its shape: no slot changes occupancy, nothing else changes at all.
    pub fn render(&mut self, ctx: &M::Context) -> (plan: FramePlan<M::Artifacts>)
        requires
            old(self).wf(),
        ensures
            final(self).wf(),
            final(self).id() == old(self).id(),
            final(self).background() == old(self).background(),
            final(self).generations() == old(self).generations(),
            final(self).recycle() == old(self).recycle(),
            final(self).adds() == old(self).adds(),
            final(self).removes() == old(self).removes(),
            final(self).meshes().len() == old(self).meshes().len(),
            forall|i: int|
                0 <= i < old(self).meshes().len() ==> ((#[trigger] final(self).meshes()[i])
                    is Some <==> old(self).meshes()[i] is Some),
            plan.background == old(self).background(),
            plan.slots@ == occupied_indices(old(self).meshes()),
            plan.draws@.len() == plan.slots@.len(),
    {
        let ghost orig = self.meshes@;
        let mut slots: Vec<usize> = Vec::new();
        let mut draws: Vec<M::Artifacts> = Vec::new();
        let mut i: usize = 0;
        let n = self.meshes.len();
        while i < n
            invariant
                i <= n,
                n == self.meshes@.len(),
                orig.len() == n,
                forall|k: int|
                    0 <= k < orig.len() ==> ((#[trigger] self.meshes@[k]) is Some <==> orig[k]
                        is Some),
                slots@ == occupied_indices(orig.subrange(0, i as int)),
                draws@.len() == slots@.len(),
                self.id == old(self).id,
                self.background == old(self).background,
                self.generations@ == old(self).generations@,
                self.mesh_recycle_ids@ == old(self).mesh_recycle_ids@,
                self.adds@ == old(self).adds@,
                self.removes@ == old(self).removes@,
            decreases n - i,
        {
            let ghost pre_iter = self.meshes@;
            match &mut self.meshes[i] {
                Some(m) => {
                    let a = m.gpu_data(ctx);
                    draws.push(a);
                    slots.push(i);
                },
                None => {},
            }
            proof {
                assert(orig.subrange(0, i + 1).drop_last() =~= orig.subrange(0, i as int));
                assert(self.meshes@[i as int] is Some <==> pre_iter[i as int] is Some);
            }
            i += 1;
        }
        proof {
            assert(orig.subrange(0, n as int) =~= orig);
        }
        FramePlan { background: self.background, slots, draws }
    }
}

/// Inserting `v` at the position that splits `s` into a prefix of larger
/// and a suffix of smaller elements is what `insert_desc` computes.
proof fn lemma_insert_desc_position(s: Seq<usize>, v: usize, j: int)
    requires
        0 <= j <= s.len(),
        forall|k: int| 0 <= k < j ==> (#[trigger] s[k]) > v,
        forall|k: int| j <= k < s.len() ==> (#[trigger] s[k]) < v,
    ensures
        s.insert(j, v) == insert_desc(s, v),
    decreases s.len(),
{
    if s.len() == 0 {
        assert(s.insert(0, v) =~= seq![v]);
    } else if j == s.len() {
        assert(s[s.len() - 1] > v);
        assert(s.insert(j, v) =~= s.push(v));
    } else {
        assert(s[s.len() - 1] < v);
        lemma_insert_desc_position(s.drop_last(), v, j);
        assert(s.insert(j, v) =~= s.drop_last().insert(j, v).push(s.last()));
    }
}

/// Slot count: under the invariant, the logical length equals the number
/// of additions minus the number of removals over the scene's lifetime;
/// that it also equals slot table length minus free list length is the
/// definition of `spec_len`.
pub proof fn lemma_len_tracks_operations<M>(s: Scene<M>)
    requires
        s.wf(),
    ensures
        s.spec_len() == s.adds() - s.removes(),
{
}

/// Handle round-trip: a handle fresh from an addition is valid against the
/// scene, and looking it up yields exactly the mesh that was added.
pub proof fn lemma_handle_round_trip<M>(pre: Scene<M>, post: Scene<M>, mesh: M, id: MeshID<M>)
    requires
        pre.wf(),
        Scene::added(pre, post, mesh, id),
    ensures
        post.valid_handle(id),
        post.meshes()[id.index as int] == Some(mesh),
{
    if pre.recycle().len() > 0 {
        let rec = pre.recycle();
        assert(rec[rec.len() - 1] == rec.last());
    }
}

/// A valid handle stays valid and keeps pointing at the same mesh while a
/// mesh is added elsewhere.
pub proof fn lemma_handle_unaffected_by_add<M>(
    pre: Scene<M>,
    post: Scene<M>,
    m2: M,
    h2: MeshID<M>,
    h: MeshID<M>,
)
    requires
        pre.wf(),
        pre.valid_handle(h),
        Scene::added(pre, post, m2, h2),
        h2.index != h.index,
    ensures
        post.valid_handle(h),
        post.meshes()[h.index as int] == pre.meshes()[h.index as int],
{
}

/// A valid handle stays valid and keeps pointing at the same mesh while a
/// different slot is vacated.
pub proof fn lemma_handle_unaffected_by_remove<M>(
    pre: Scene<M>,
    post: Scene<M>,
    h2: MeshID<M>,
    h: MeshID<M>,
)
    requires
        pre.wf(),
        pre.valid_handle(h),
        pre.valid_handle(h2),
        Scene::removed(pre, post, h2),
        h2.index != h.index,
    ensures
        post.valid_handle(h),
        post.meshes()[h.index as int] == pre.meshes()[h.index as int],
{
}

/// Slot reuse: when the slot freed by a removal is the lowest free index,
/// the next addition reuses exactly that slot, and the new handle reaches
/// the newly added mesh, not the removed one.
pub proof fn lemma_slot_reuse<M>(
    pre: Scene<M>,
    mid: Scene<M>,
    post: Scene<M>,
    h1: MeshID<M>,
    m2: M,
    h2: MeshID<M>,
)
    requires
        pre.wf(),
        mid.wf(),
        pre.valid_handle(h1),
        Scene::removed(pre, mid, h1),
        Scene::added(mid, post, m2, h2),
        forall|k: int| 0 <= k < pre.recycle().len() ==> (#[trigger] pre.recycle()[k]) > h1.index,
    ensures
        h2.index == h1.index,
        post.meshes()[h2.index as int] == Some(m2),
        post.valid_handle(h2),
{
    lemma_insert_desc_position(pre.recycle(), h1.index, pre.recycle().len() as int);
    assert(mid.recycle() == pre.recycle().insert(pre.recycle().len() as int, h1.index));
    assert(mid.recycle().last() == h1.index);
    lemma_handle_round_trip(mid, post, m2, h2);
}

/// Cross-registry rejection: a handle issued by one scene is never valid
/// against a scene of another identity, whatever that scene holds; looking
/// it up there reports a foreign handle instead of answering.
pub proof fn lemma_cross_registry_rejection<M>(
    pre: Scene<M>,
    post: Scene<M>,
    other: Scene<M>,
    mesh: M,
    id: MeshID<M>,
)
    requires
        Scene::added(pre, post, mesh, id),
        other.id() != pre.id(),
    ensures
        !other.valid_handle(id),
        id.scene_id != other.id(),
{
}

/// A strictly descending sequence of indices all below `n` cannot have more
/// than `n` elements.
proof fn lemma_descending_all_below(s: Seq<usize>, n: int)
    requires
        0 <= n,
        forall|k: int| 0 <= k < s.len() ==> (#[trigger] s[k]) < n,
        forall|k1: int, k2: int|
            #![trigger s[k1], s[k2]]
            0 <= k1 < k2 < s.len() ==> s[k1] > s[k2],
    ensures
        s.len() <= n,
    decreases s.len(),
{
    if s.len() > 0 {
        let tail = s.subrange(1, s.len() as int);
        assert forall|k: int| 0 <= k < tail.len() implies (#[trigger] tail[k]) < s[0] as int by {
            assert(s[0] > s[k + 1]);
        }
        assert forall|k1: int, k2: int|
            #![trigger tail[k1], tail[k2]]
            0 <= k1 < k2 < tail.len() implies tail[k1] > tail[k2] by {
            assert(s[k1 + 1] > s[k2 + 1]);
        }
        lemma_descending_all_below(tail, s[0] as int);
        assert(tail.len() <= s[0] as int);
        assert(s.len() == tail.len() + 1);
        assert(s[0] < n);
    }
}

} // verus!
