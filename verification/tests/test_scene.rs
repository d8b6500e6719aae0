use san::{MeshID, Scene, SceneError};

#[derive(Debug)]
struct DummyMesh {
    label: &'static str,
}

impl DummyMesh {
    fn new(label: &'static str) -> Self {
        Self { label }
    }
}

fn init_scene() -> Scene<DummyMesh> {
    Scene::new(0, wgpu::Color::WHITE)
}

#[test]
fn test_scene_add_mesh() {
    let mut scene = init_scene();

    scene.add_mesh(DummyMesh::new("mesh1"));
    scene.add_mesh(DummyMesh::new("mesh2"));

    assert_eq!(scene.meshes_len(), 2);
}

#[test]
fn test_scene_remove_mesh() {
    let mut scene = init_scene();

    let mesh1 = scene.add_mesh(DummyMesh::new("mesh1"));
    scene.add_mesh(DummyMesh::new("mesh2"));

    scene.remove_mesh(mesh1);
    assert_eq!(scene.meshes_len(), 1);
}

#[test]
fn test_scene_get_mesh_ref() {
    let mut scene = init_scene();

    let mesh1 = scene.add_mesh(DummyMesh::new("mesh1"));
    let mesh2 = scene.add_mesh(DummyMesh::new("mesh2"));

    assert_eq!(scene.get_mesh_ref(&mesh1).label, "mesh1");
    assert_eq!(scene.get_mesh_ref(&mesh2).label, "mesh2");
}

#[test]
fn test_scene_get_mesh_mut() {
    let mut scene = init_scene();

    let mesh1 = scene.add_mesh(DummyMesh::new("mesh1"));
    let mesh2 = scene.add_mesh(DummyMesh::new("mesh2"));

    assert_eq!(scene.get_mesh_mut(&mesh1).label, "mesh1");
    assert_eq!(scene.get_mesh_mut(&mesh2).label, "mesh2");
}

#[test]
fn test_handle_round_trip() {
    let mut scene = init_scene();

    let h = scene.add_mesh(DummyMesh::new("round"));
    assert_eq!(h.index, 0);
    assert_eq!(scene.get_mesh_ref(&h).label, "round");

    scene.get_mesh_mut(&h).label = "changed";
    assert_eq!(scene.get_mesh_ref(&h).label, "changed");
}

#[test]
fn test_slot_reuse_lowest_index() {
    let mut scene = init_scene();

    let h0 = scene.add_mesh(DummyMesh::new("a"));
    let h1 = scene.add_mesh(DummyMesh::new("b"));
    let h2 = scene.add_mesh(DummyMesh::new("c"));
    assert_eq!((h0.index, h1.index, h2.index), (0, 1, 2));

    let i1 = h1.index;
    scene.remove_mesh(h1);
    scene.remove_mesh(h0);
    assert_eq!(scene.meshes_len(), 1);

    // the lowest tombstoned index is reused first
    let h3 = scene.add_mesh(DummyMesh::new("d"));
    assert_eq!(h3.index, 0);
    assert_eq!(scene.get_mesh_ref(&h3).label, "d");

    let h4 = scene.add_mesh(DummyMesh::new("e"));
    assert_eq!(h4.index, i1);
    assert_eq!(scene.get_mesh_ref(&h4).label, "e");

    let h5 = scene.add_mesh(DummyMesh::new("f"));
    assert_eq!(h5.index, 3);
    assert_eq!(scene.meshes_len(), 4);
}

#[test]
fn test_slot_reuse_after_single_remove() {
    let mut scene = init_scene();

    let h1 = scene.add_mesh(DummyMesh::new("first"));
    scene.add_mesh(DummyMesh::new("second"));
    let i = h1.index;

    scene.remove_mesh(h1);
    let h2 = scene.add_mesh(DummyMesh::new("third"));
    assert_eq!(h2.index, i);
    assert_eq!(scene.get_mesh_ref(&h2).label, "third");
}

#[test]
fn test_cross_registry_rejection() {
    let mut scene_a: Scene<DummyMesh> = Scene::new(1, wgpu::Color::WHITE);
    let scene_b: Scene<DummyMesh> = Scene::new(2, wgpu::Color::WHITE);

    let h = scene_a.add_mesh(DummyMesh::new("mesh1"));
    assert!(scene_a.try_get_mesh_ref(&h).is_ok());
    assert_eq!(
        scene_b.try_get_mesh_ref(&h).err(),
        Some(SceneError::ForeignHandle)
    );
}

#[test]
fn test_stale_handle_detected() {
    let mut scene = init_scene();

    let h1 = scene.add_mesh(DummyMesh::new("old"));
    let stale: MeshID<DummyMesh> = MeshID::new(h1.scene_id, h1.index, h1.generation);
    scene.remove_mesh(h1);

    let h2 = scene.add_mesh(DummyMesh::new("new"));
    assert_eq!(h2.index, stale.index);
    assert_eq!(
        scene.try_get_mesh_ref(&stale).err(),
        Some(SceneError::StaleHandle)
    );
    assert_eq!(scene.get_mesh_ref(&h2).label, "new");
}

#[test]
fn test_vacant_and_missing_slots() {
    let mut scene = init_scene();

    let h = scene.add_mesh(DummyMesh::new("only"));
    let copy: MeshID<DummyMesh> = MeshID::new(h.scene_id, h.index, h.generation);
    let beyond: MeshID<DummyMesh> = MeshID::new(h.scene_id, 5, 0);
    assert_eq!(
        scene.try_get_mesh_ref(&beyond).err(),
        Some(SceneError::NoSuchSlot)
    );

    scene.remove_mesh(h);
    assert_eq!(
        scene.try_get_mesh_ref(&copy).err(),
        Some(SceneError::VacantSlot)
    );
}

#[test]
fn test_try_remove_mesh() {
    let mut scene = init_scene();
    let other: Scene<DummyMesh> = Scene::new(9, wgpu::Color::WHITE);

    let h = scene.add_mesh(DummyMesh::new("mesh1"));
    let copy: MeshID<DummyMesh> = MeshID::new(h.scene_id, h.index, h.generation);

    let mut foreign: Scene<DummyMesh> = other;
    assert_eq!(
        foreign.try_remove_mesh(&h).err(),
        Some(SceneError::ForeignHandle)
    );

    let removed = scene.try_remove_mesh(&h).unwrap();
    assert_eq!(removed.label, "mesh1");
    assert_eq!(scene.meshes_len(), 0);

    // the slot is already vacant now
    assert_eq!(
        scene.try_remove_mesh(&copy).err(),
        Some(SceneError::VacantSlot)
    );
}

#[test]
fn test_len_tracks_operations() {
    let mut scene = init_scene();
    assert_eq!(scene.meshes_len(), 0);

    let mut handles = Vec::new();
    for k in 0..5 {
        handles.push(scene.add_mesh(DummyMesh::new("m")));
        assert_eq!(scene.meshes_len(), k + 1);
    }
    let mut left = 5;
    for h in handles {
        scene.remove_mesh(h);
        left -= 1;
        assert_eq!(scene.meshes_len(), left);
    }
}
