use std::cell::Cell;
use std::sync::Arc;

use san::gpu::{GpuCached, ToGpu};
use san::Mesh;

/// A description whose derivation reports every run through the context,
/// so a test can count how often the device would have been hit.
struct CountingDesc {
    value: u64,
}

impl ToGpu for CountingDesc {
    type Context = Cell<u32>;
    type Target = u64;

    fn to_gpu(&self, ctx: &Cell<u32>) -> u64 {
        ctx.set(ctx.get() + 1);
        self.value
    }
}

struct OtherDesc {
    value: u64,
}

impl ToGpu for OtherDesc {
    type Context = Cell<u32>;
    type Target = u64;

    fn to_gpu(&self, ctx: &Cell<u32>) -> u64 {
        ctx.set(ctx.get() + 100);
        self.value
    }
}

#[test]
fn test_cache_realizes_once() {
    let ctx = Cell::new(0);
    let mut cache = GpuCached::new(CountingDesc { value: 42 });

    let a1 = cache.to_gpu(&ctx);
    let a2 = cache.to_gpu(&ctx);
    let a3 = cache.to_gpu(&ctx);

    // the derivation ran exactly once, and every call shares its artifact
    assert_eq!(ctx.get(), 1);
    assert_eq!(*a1, 42);
    assert!(Arc::ptr_eq(&a1, &a2));
    assert!(Arc::ptr_eq(&a1, &a3));
}

#[test]
fn test_cache_derives_lazily() {
    let ctx = Cell::new(0);
    let mut cache = GpuCached::new(CountingDesc { value: 7 });

    // building the cache does not touch the device
    assert_eq!(ctx.get(), 0);
    let a = cache.to_gpu(&ctx);
    assert_eq!(ctx.get(), 1);
    assert_eq!(*a, 7);
}

#[test]
fn test_mesh_realizes_both_caches_once() {
    let ctx = Cell::new(0);
    let mut mesh = Mesh::new(CountingDesc { value: 5 }, OtherDesc { value: 6 });

    let (g1, m1) = mesh.realize(&ctx);
    let (g2, m2) = mesh.realize(&ctx);

    // one geometry derivation (+1) and one material derivation (+100)
    assert_eq!(ctx.get(), 101);
    assert_eq!(*g1, 5);
    assert_eq!(*m1, 6);
    assert!(Arc::ptr_eq(&g1, &g2));
    assert!(Arc::ptr_eq(&m1, &m2));
}
