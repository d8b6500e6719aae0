use vstd::prelude::*;
use std::sync::Arc;

verus! {

/// Capability to derive a device-resident artifact from a CPU-side
/// description. Implementors make the actual device calls; the library
/// neither inspects the context nor the artifact, it only memoizes.
pub trait ToGpu: Sized {
    /// The device/format bundle the derivation runs against. It must stay
    /// the same for every realization of one cache.
    type Context;

    /// The derived GPU artifact.
    type Target;

    fn to_gpu(&self, ctx: &Self::Context) -> Self::Target;
}

/// Relies on `std::sync::Arc::clone`: the clone is a new shared reference
/// to the same allocation, so it carries the same value.
#[verifier::external_body]
fn arc_clone<T>(v: &Arc<T>) -> (r: Arc<T>)
    ensures
        r == *v,
{
    Arc::clone(v)
}

/// A CPU-side description paired with its lazily derived GPU artifact.
///
/// The artifact is derived at most once for the lifetime of the cache: the
/// first realization computes and stores it, and every later realization
/// hands out another shared reference to that same artifact.
pub struct GpuCached<T: ToGpu> {
    base: T,
    gpu_data: Option<Arc<T::Target>>,
    derivations: Ghost<nat>,
}

impl<T: ToGpu> GpuCached<T> {
    /// The wrapped description.
    pub closed spec fn base(self) -> T {
        self.base
    }

    /// The cached artifact, if one has been derived.
    pub closed spec fn artifact(self) -> Option<Arc<T::Target>> {
        self.gpu_data
    }

    /// How many times the derivation has run for this cache.
    pub closed spec fn derivations(self) -> nat {
        self.derivations@
    }

    /// The derivation has run exactly once when an artifact is cached and
    /// never otherwise.
    pub open spec fn wf(self) -> bool {
        self.derivations() == if self.artifact() is Some {
            1nat
        } else {
            0nat
        }
    }

    /// Relation between the cache before and after one realization that
    /// returned `r`: the description is untouched, `r` is cached afterwards,
    /// a previously cached artifact is returned as-is, and the derivation
    /// runs only into an empty cache.
    pub open spec fn realized(pre: Self, post: Self, r: Arc<T::Target>) -> bool {
        &&& post.base() == pre.base()
        &&& post.artifact() == Some(r)
        &&& pre.artifact() matches Some(v) ==> r == v
        &&& post.derivations() == if pre.artifact() is Some {
            pre.derivations()
        } else {
            pre.derivations() + 1
        }
    }

    pub fn new(base: T) -> (c: Self)
        ensures
            c.wf(),
            c.base() == base,
            c.artifact() is None,
            c.derivations() == 0,
    {
        Self { base, gpu_data: None, derivations: Ghost(0nat) }
    }

    /// Realize the artifact: derive it on the first call, return the shared
    /// cached artifact on every later call.
    pub fn to_gpu(&mut self, ctx: &T::Context) -> (r: Arc<T::Target>)
        ensures
            old(self).wf() ==> final(self).wf(),
            Self::realized(*old(self), *final(self), r),
    {
        match &self.gpu_data {
            Some(v) => arc_clone(v),
            None => {
                let data = Arc::new(self.base.to_gpu(ctx));
                self.gpu_data = Some(arc_clone(&data));
                self.derivations = Ghost(self.derivations@ + 1);
                data
            },
        }
    }
}

/// Cache at-most-once: across any chain of realizations of one cache that
/// starts empty, every realization returns the same artifact as the first,
/// and the derivation runs exactly once in the whole chain.
///
/// `states[0]` is the fresh cache; `states[k + 1]` is the cache after the
/// realization that returned `results[k]`.
pub proof fn lemma_cache_at_most_once<T: ToGpu>(
    states: Seq<GpuCached<T>>,
    results: Seq<Arc<T::Target>>,
)
    requires
        states.len() == results.len() + 1,
        results.len() >= 1,
        states[0].artifact() is None,
        states[0].derivations() == 0,
        forall|k: int|
            0 <= k < results.len() ==> GpuCached::realized(states[k], states[k + 1], results[k]),
    ensures
        forall|k: int| 0 <= k < results.len() ==> #[trigger] results[k] == results[0],
        states.last().derivations() == 1,
    decreases results.len(),
{
    let n = results.len() as int;
    if n == 1 {
        assert(GpuCached::realized(states[0], states[1], results[0]));
        assert(states.last() == states[1]);
    } else {
        let sub_s = states.take(n);
        let sub_r = results.take(n - 1);
        assert forall|k: int| 0 <= k < sub_r.len() implies GpuCached::realized(
            sub_s[k],
            sub_s[k + 1],
            sub_r[k],
        ) by {
            assert(GpuCached::realized(states[k], states[k + 1], results[k]));
        }
        lemma_cache_at_most_once(sub_s, sub_r);
        assert(sub_s.last() == states[n - 1]);
        assert(GpuCached::realized(states[n - 2], states[n - 1], results[n - 2]));
        assert(states[n - 1].artifact() == Some(results[n - 2]));
        assert(GpuCached::realized(states[n - 1], states[n], results[n - 1]));
        assert(sub_r[n - 2] == results[n - 2] && sub_r[0] == results[0]);
        assert(results[n - 1] == results[n - 2]);
        assert forall|k: int| 0 <= k < n implies #[trigger] results[k] == results[0] by {
            if k < n - 1 {
                assert(sub_r[k] == sub_r[0]);
            }
        }
        assert(states.last() == states[n]);
    }
}

} // verus!
