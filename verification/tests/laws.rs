use sdf_terrain::math::ivec3;
use sdf_terrain::math::IVec3;
use sdf_terrain::octree::Octree;
use sdf_terrain::octree::OctreeNode;
use sdf_terrain::world::chunk::WorldChunk;
use sdf_terrain::world::manager::ChunkManager;

fn ramp(p: IVec3) -> u8 {
    (p.y * 64 + 128).clamp(0, 255) as u8
}

fn echo(p: IVec3) -> u8 {
    (p.x as i64 + 3 * p.y as i64 + 5 * p.z as i64).rem_euclid(256) as u8
}

fn with_distances(view: i32, gen: i32, budget: i32) -> ChunkManager {
    let mut m = ChunkManager::new();
    m.view_dist = view;
    m.gen_dist = gen;
    m.operations_per_frame = budget;
    m
}

fn idle(m: &ChunkManager) -> bool {
    m.queue_chunk.is_empty() && m.queue_sfp.is_empty() && m.queue_mesh.is_empty()
}

#[test]
fn nearby_holds_the_cube_of_its_side() {
    for (dist, count) in [(0, 1usize), (1, 27), (2, 125), (3, 343), (4, 729)] {
        assert_eq!(ChunkManager::nearby_coords(ivec3(5, -6, 7), dist).len(), count);
    }
    assert_eq!(ChunkManager::nearby_coords(ivec3(5, -6, 7), -1).len(), 0);
    assert_eq!(ChunkManager::nearby_coords(ivec3(i32::MAX, i32::MIN, 0), 0).len(), 1);
}

#[test]
fn a_frame_is_in_reach_while_its_chunks_fit() {
    let m = with_distances(1, 1, 5);
    assert!(m.reaches(ivec3(0, 0, 0)));
    assert!(m.reaches(ivec3(268_435_452, -268_435_453, 0)));
    assert!(!m.reaches(ivec3(268_435_453, 0, 0)));
    assert!(!m.reaches(ivec3(0, -268_435_454, 0)));
    assert!(!m.reaches(ivec3(0, 0, i32::MAX)));
    assert!(!m.reaches(ivec3(0, 0, i32::MIN)));
    let wide = with_distances(1, 100, 5);
    assert!(wide.reaches(ivec3(268_435_353, 0, 0)));
    assert!(!wide.reaches(ivec3(268_435_354, 0, 0)));
}

#[test]
fn a_frame_out_of_reach_is_not_begun() {
    let mut m = with_distances(1, 1, 5);
    assert!(!m.update(ivec3(i32::MAX, 0, 0), &ramp));
    assert!(idle(&m));
    assert!(!m.chunks.contains_key(&m.chunk_coord2key(ivec3(0, 0, 0))));
    assert!(m.update(ivec3(0, 0, 0), &ramp));
    assert_eq!(m.queue_chunk.len() + m.queue_sfp.len() + m.queue_mesh.len(), 27);
    let before = (m.queue_chunk.clone(), m.queue_sfp.clone(), m.queue_mesh.clone());
    assert!(!m.update(ivec3(0, i32::MIN, 0), &ramp));
    assert!(before == (m.queue_chunk.clone(), m.queue_sfp.clone(), m.queue_mesh.clone()));
    assert_eq!((m.view_dist, m.gen_dist, m.operations_per_frame), (1, 1, 5));
    // a frame that builds nothing has updated nothing
    m.operations_per_frame = 100;
    m.generate_chunks(ivec3(0, 0, 0), &ramp);
    assert!(idle(&m));
    let centre = m.chunk_coord2key(ivec3(0, 0, 0));
    assert!(m.chunk_updated.contains(&centre));
    let stored = m.chunks.keys().len();
    m.generate_chunks(ivec3(0, i32::MAX, 0), &ramp);
    assert!(!m.chunk_updated.contains(&centre));
    assert!(idle(&m));
    assert_eq!(m.chunks.keys().len(), stored);
    assert_eq!(m.meshes.keys().len(), 9);
}

#[test]
fn the_first_frame_covers_the_generation_distance() {
    let mut m = with_distances(1, 2, 0);
    let cur = ivec3(3, 0, -2);
    assert!(m.update(cur, &ramp));
    assert_eq!(m.queue_chunk.len(), 125);
    for c in ChunkManager::nearby_coords(cur, 2) {
        assert!(m.operation_pending.contains(&m.chunk_coord2key(c)));
    }
    m.operations_per_frame = 50;
    let mut frames = 0;
    while !idle(&m) {
        assert!(m.update(cur, &ramp));
        frames += 1;
        assert!(frames < 100);
    }
    for c in ChunkManager::nearby_coords(cur, 2) {
        let key = m.chunk_coord2key(c);
        assert!(m.chunks.contains_key(&key));
        assert!(m.surface_maps.contains_key(&key));
        assert_eq!(m.meshes.contains_key(&key), c.y == 0);
        assert!(!m.operation_pending.contains(&key));
    }
}

#[test]
fn a_plane_leaves_the_other_layers_bare_in_every_frame() {
    let mut m = with_distances(1, 1, 4);
    let cur = ivec3(0, 0, 0);
    let mut frames = 0;
    let mut shown = 0;
    loop {
        assert!(m.update(cur, &ramp));
        shown = 0;
        for c in ChunkManager::nearby_coords(cur, 1) {
            let key = m.chunk_coord2key(c);
            if let Some(surface) = m.surface_maps.get(&key) {
                assert!(c.y == 0 || surface.is_empty());
            }
            if let Some(mesh) = m.meshes.get(&key) {
                assert!(c.y == 0);
                assert!(!mesh.is_empty());
                shown += 1;
            }
        }
        frames += 1;
        assert!(frames < 100);
        if idle(&m) {
            break;
        }
    }
    assert_eq!(shown, 9);
}

#[test]
fn a_uniform_field_stays_bare_in_every_frame() {
    for level in [0u8, 64, 128, 129, 192, 255] {
        let field = move |_p: IVec3| level;
        let mut m = with_distances(1, 1, 5);
        let cur = ivec3(-4, 9, 2);
        let mut frames = 0;
        loop {
            assert!(m.update(cur, &field));
            for c in ChunkManager::nearby_coords(cur, 1) {
                let key = m.chunk_coord2key(c);
                if let Some(surface) = m.surface_maps.get(&key) {
                    assert!(surface.is_empty());
                }
                assert!(!m.meshes.contains_key(&key));
            }
            frames += 1;
            assert!(frames < 100);
            if idle(&m) {
                break;
            }
        }
        assert!(m.surface_maps.contains_key(&m.chunk_coord2key(cur)));
        assert!(m.meshes.keys().is_empty());
    }
}

#[test]
fn a_chunk_of_one_voxel_stands_anywhere() {
    for at in [ivec3(i32::MAX, i32::MIN, -7), ivec3(0, 0, 0), ivec3(i32::MIN, i32::MAX, i32::MAX)] {
        let chunk = WorldChunk::new(at, 0, &echo);
        assert_eq!(chunk.midpoint, ivec3(0, 0, 0));
        assert_eq!(chunk.sdftree.keys(), vec![1u64]);
        let root = chunk.sdftree.get_node(&1);
        assert_eq!((root.mask, root.value), (0, echo(at)));
        assert_eq!(chunk.coord2pos(ivec3(0, 0, 0)), at);
        let none: Vec<Option<&WorldChunk>> = vec![None; 8];
        assert!(chunk.surface_tree(&none).is_empty());
    }
}

#[test]
fn a_node_can_be_changed_where_it_stands() {
    let mut tree: Octree<u8> = Octree::new(2);
    tree.insert(1, OctreeNode { mask: 0, value: 10 });
    tree.insert_value(0b1_011, 20);
    assert!(tree.get_mut(&0b1_010).is_none());
    match tree.get_mut(&0b1_011) {
        Some(node) => node.value = 21,
        None => panic!("the node is stored"),
    }
    tree.get_parent_mut(0b1_011).mask = 0b1000;
    assert_eq!((tree.get_node(&1).mask, tree.get_node(&1).value), (0b1000, 10));
    assert_eq!((tree.get_node(&0b1_011).mask, tree.get_node(&0b1_011).value), (0, 21));
    let mut codes = tree.keys();
    codes.sort();
    assert_eq!(codes, vec![1u64, 0b1_011]);
    assert!(Octree::<u8>::new(3).keys().is_empty());
}
