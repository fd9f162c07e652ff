use sdf_terrain::direction::IDirection;
use sdf_terrain::math::ivec3;
use sdf_terrain::math::IVec3;
use sdf_terrain::world::manager::ChunkManager;

fn plane(p: IVec3) -> u8 {
    (p.y * 64 + 128).clamp(0, 255) as u8
}

fn small() -> ChunkManager {
    let mut m = ChunkManager::new();
    m.view_dist = 0;
    m.gen_dist = 1;
    m.operations_per_frame = 0;
    m
}

#[test]
fn fresh_manager_has_the_default_settings() {
    let m = ChunkManager::new();
    assert_eq!((m.chunk_degree, m.chunk_size), (3, 8));
    assert_eq!((m.view_dist, m.gen_dist, m.operations_per_frame), (10, 10, 20));
    assert!(m.queue_chunk.is_empty() && m.queue_sfp.is_empty() && m.queue_mesh.is_empty());
    assert_eq!(m.chunk_coord2key(ivec3(1, -1, 2)), sdf_terrain::math::coord2key(ivec3(8, -8, 16)));
}

#[test]
fn scan_queues_the_generation_distance_once_the_view_misses_a_chunk() {
    let mut m = small();
    let cur = ivec3(5, 5, 5);
    m.enqueue_missing(cur);
    assert_eq!(m.queue_chunk, ChunkManager::nearby_coords(cur, 1));
    for c in m.queue_chunk.iter() {
        assert!(m.operation_pending.contains(&m.chunk_coord2key(*c)));
    }
    // what is pending is not missing: a second scan adds nothing
    m.enqueue_missing(cur);
    assert_eq!(m.queue_chunk.len(), 27);
    // a frame without budget only scans and empties the updated set
    m.generate_chunks(cur, &plane);
    assert_eq!(m.queue_chunk.len(), 27);
    assert!(m.queue_sfp.is_empty());
    // a view that is covered asks for nothing, whatever lies further out
    m.enqueue_missing(ivec3(6, 5, 5));
    assert_eq!(m.queue_chunk.len(), 27);
    m.enqueue_missing(ivec3(7, 5, 5));
    assert_eq!(m.queue_chunk.len(), 27 + 18);
    assert_eq!(m.queue_chunk[27], ivec3(7, 5, 5));
    assert_eq!(m.queue_chunk[28], ivec3(7, 4, 6));
    assert_eq!(m.queue_chunk[29], ivec3(8, 4, 6));
}

#[test]
fn operations_advance_one_chunk_by_one_stage() {
    let mut m = small();
    m.gen_dist = 0;
    let cur = ivec3(0, 0, 0);
    m.start_frame(cur);
    assert_eq!(m.queue_chunk, vec![cur]);
    let key = m.chunk_coord2key(cur);
    m.advance(&plane);
    assert!(m.queue_chunk.is_empty());
    assert_eq!(m.queue_sfp, vec![cur]);
    assert!(m.chunks.contains_key(&key) && !m.surface_maps.contains_key(&key));
    assert!(m.operation_pending.contains(&key));
    m.advance(&plane);
    assert!(m.queue_sfp.is_empty());
    assert_eq!(m.queue_mesh, vec![cur]);
    assert!(m.surface_maps.contains_key(&key) && !m.meshes.contains_key(&key));
    assert!(!m.chunk_updated.contains(&key));
    m.advance(&plane);
    assert!(m.queue_mesh.is_empty());
    assert!(m.meshes.contains_key(&key));
    assert!(!m.operation_pending.contains(&key));
    assert!(m.chunk_updated.contains(&key));
    // nothing waits: an operation does nothing
    m.advance(&plane);
    assert!(m.chunk_updated.contains(&key));
    m.start_frame(cur);
    assert!(!m.chunk_updated.contains(&key));
    assert!(m.queue_chunk.is_empty());
}

#[test]
fn a_new_chunk_wakes_the_stored_chunks_behind_it() {
    let mut m = small();
    m.gen_dist = 0;
    m.operations_per_frame = 10;
    m.generate_chunks(ivec3(0, 0, 0), &plane);
    m.generate_chunks(ivec3(1, 1, 0), &plane);
    assert!(m.queue_chunk.is_empty() && m.queue_sfp.is_empty() && m.queue_mesh.is_empty());
    assert_eq!(m.operation_pending.contains(&m.chunk_coord2key(ivec3(1, 1, 0))), false);
    // the chunk at (1, 0, 0) has (0, 0, 0) behind it, which is stored and idle
    m.operations_per_frame = 1;
    m.generate_chunks(ivec3(1, 0, 0), &plane);
    assert_eq!(m.queue_sfp, vec![ivec3(0, 0, 0), ivec3(1, 0, 0)]);
    m.generate_chunks(ivec3(1, 0, 0), &plane);
    // its surface is used by the mesh of (1, 1, 0) in front of it
    assert_eq!(m.queue_sfp, vec![ivec3(0, 0, 0)]);
    assert_eq!(m.queue_mesh, vec![ivec3(1, 1, 0), ivec3(1, 0, 0)]);
    m.operations_per_frame = 10;
    m.generate_chunks(ivec3(1, 0, 0), &plane);
    assert!(m.queue_sfp.is_empty() && m.queue_mesh.is_empty());
    for c in [ivec3(0, 0, 0), ivec3(1, 0, 0), ivec3(1, 1, 0)] {
        assert!(m.chunk_updated.contains(&m.chunk_coord2key(c)));
    }
    // with its neighbour in place the mesh of the first chunk reaches across
    let mesh = m.meshes.get(&m.chunk_coord2key(ivec3(1, 0, 0))).unwrap();
    assert!(!mesh.is_empty());
}

#[test]
fn builders_store_what_they_build() {
    let mut m = small();
    let a = ivec3(0, 0, 0);
    let b = ivec3(-1, 0, 0);
    m.create_chunk(a, &plane);
    m.create_chunk(b, &plane);
    assert!(m.chunks.contains_key(&m.chunk_coord2key(a)));
    assert!(!m.has_surface_map(a));
    // without a surface there is no mesh
    m.create_mesh(a);
    assert!(!m.meshes.contains_key(&m.chunk_coord2key(a)));
    m.create_surface_map(a);
    m.create_surface_map(b);
    assert!(m.has_surface_map(a));
    assert!(!m.get_surface_map(a).is_empty());
    m.create_mesh(a);
    let around = m.get_neighbor_chunks(a, &IDirection::negative_dirs());
    assert_eq!(around[0].map(|c| c.coord), Some(a));
    assert_eq!(around[1].map(|c| c.coord), Some(b));
    for i in 2..8 {
        assert!(around[i].is_none());
    }
    let chunk = m.chunks.get(&m.chunk_coord2key(a)).unwrap();
    let corners = m.get_neighbor_sfp(chunk, ivec3(0, 4, 3), &IDirection::negative_dirs(), &around);
    // the voxel itself, and the one behind it in the stored neighbour
    assert_eq!(corners[0].map(|c| (c.0, c.1)), Some((ivec3(0, 0, 0), ivec3(0, 4, 3))));
    assert_eq!(corners[1].map(|c| (c.0, c.1)), Some((ivec3(-8, 0, 0), ivec3(7, 4, 3))));
    // one step down there is no surface
    assert!(corners[2].is_none());
    assert_eq!(corners[3].map(|c| (c.0, c.1)), Some((ivec3(0, 0, 0), ivec3(0, 4, 2))));
    assert!(corners[4].is_none());
    assert_eq!(corners[5].map(|c| (c.0, c.1)), Some((ivec3(-8, 0, 0), ivec3(7, 4, 2))));
    // at the back of the chunk the step leads to a chunk that is not stored
    let edge = m.get_neighbor_sfp(chunk, ivec3(3, 4, 0), &IDirection::negative_dirs(), &around);
    assert!(edge[0].is_some() && edge[1].is_some());
    assert!(edge[3].is_none() && edge[5].is_none());
    let mesh = m.meshes.get(&m.chunk_coord2key(a)).unwrap();
    // every voxel of the layer of the plane but those at the back closes its
    // quad; so does the top layer, which reads the bottom of the chunk
    // itself where the chunk above is missing
    assert_eq!(mesh.next_ind, 2 * 8 * 7 * 6);
}

#[test]
fn a_mesh_without_triangles_is_not_stored() {
    let mut m = small();
    let a = ivec3(0, 0, 0);
    let key = m.chunk_coord2key(a);
    let flat = |_p: IVec3| 192u8;
    m.create_chunk(a, &flat);
    m.create_surface_map(a);
    assert!(m.has_surface_map(a) && m.get_surface_map(a).is_empty());
    m.create_mesh(a);
    assert!(!m.meshes.contains_key(&key));
    // the same chunk in a field with a surface gets its mesh
    m.create_chunk(a, &plane);
    m.create_surface_map(a);
    m.create_mesh(a);
    assert!(!m.meshes.get(&key).unwrap().is_empty());
    // and loses it again once its surface holds no point
    m.create_chunk(a, &flat);
    m.create_surface_map(a);
    assert!(m.meshes.contains_key(&key));
    m.create_mesh(a);
    assert!(!m.meshes.contains_key(&key));
    assert!(m.has_surface_map(a));
    assert!(m.chunks.contains_key(&key));
}
