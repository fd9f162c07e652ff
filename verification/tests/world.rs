use sdf_terrain::direction::IDirection;
use sdf_terrain::hasher::SeaHashSet;
use sdf_terrain::math::ivec3;
use sdf_terrain::math::key2coord;
use sdf_terrain::math::IVec3;
use sdf_terrain::octree::SurfacePoint;
use sdf_terrain::render::buffers::IndexedBufferManager;
use sdf_terrain::world::manager::ChunkManager;

fn compress(v: f64) -> u8 {
    ((v * 64.0) as i32 + 128).clamp(0, 255) as u8
}

fn sphere(p: IVec3) -> u8 {
    let (x, y, z) = (p.x as f64, p.y as f64, p.z as f64);
    compress((x * x + y * y + z * z).sqrt() - 5.0)
}

fn plane(p: IVec3) -> u8 {
    compress(p.y as f64)
}

fn flat(_p: IVec3) -> u8 {
    compress(1.0)
}

fn manager(view: i32, budget: i32) -> ChunkManager {
    let mut m = ChunkManager::new();
    m.view_dist = view;
    m.gen_dist = view;
    m.operations_per_frame = budget;
    m
}

fn drain<F: Fn(IVec3) -> u8>(m: &mut ChunkManager, cur: IVec3, field: &F) {
    for _ in 0..200 {
        m.generate_chunks(cur, field);
        if m.queue_chunk.is_empty() && m.queue_sfp.is_empty() && m.queue_mesh.is_empty() {
            return;
        }
    }
    panic!("the queues did not drain");
}

/// The state of the queues and tables that every frame must leave behind.
fn check_invariants(m: &ChunkManager) {
    let queues = [&m.queue_chunk, &m.queue_sfp, &m.queue_mesh];
    let mut waiting: Vec<IVec3> = Vec::new();
    for q in queues {
        for c in q.iter() {
            assert!(!waiting.contains(c));
            waiting.push(*c);
            assert!(m.operation_pending.contains(&m.chunk_coord2key(*c)));
        }
    }
    for c in m.queue_chunk.iter() {
        assert!(!m.chunks.contains_key(&m.chunk_coord2key(*c)));
    }
    for c in m.queue_sfp.iter() {
        assert!(m.chunks.contains_key(&m.chunk_coord2key(*c)));
    }
    for c in m.queue_mesh.iter() {
        assert!(m.surface_maps.contains_key(&m.chunk_coord2key(*c)));
    }
    // every key that could be pending around the origin is a waiting one
    for c in ChunkManager::nearby_coords(ivec3(0, 0, 0), 4) {
        let key = m.chunk_coord2key(c);
        assert_eq!(m.operation_pending.contains(&key), waiting.contains(&c));
        if let Some(mesh) = m.meshes.get(&key) {
            assert!(m.surface_maps.contains_key(&key));
            // a mesh without triangles is not stored
            assert!(!mesh.is_empty());
        }
        if m.surface_maps.contains_key(&key) {
            assert!(m.chunks.contains_key(&key));
            assert_eq!(m.chunks.get(&key).unwrap().coord, c);
        }
    }
}

/// The voxel reads a corner from a chunk beyond the generated world, where
/// the chunk itself stands in for the missing neighbour.
fn at_world_edge(c: IVec3, v: IVec3) -> bool {
    (c.x == 1 && v.x == 7) || (c.y == 1 && v.y == 7) || (c.z == 1 && v.z == 7)
}

/// The feature point of a voxel in the frame of the voxel: the mean of the
/// crossings of its active edges.
fn local_position(sp: &SurfacePoint) -> [f64; 3] {
    let dirs = IDirection::positive_dirs();
    let edges = IDirection::edge_inds();
    let mut sum = [0.0f64; 3];
    let mut count = 0.0;
    for e in 0..12 {
        if let Some((num, den)) = sp.edge_crossing(e) {
            let t = num as f64 / den as f64;
            let (a, b) = (dirs[edges[e].0], dirs[edges[e].1]);
            sum[0] += a.x as f64 + (b.x - a.x) as f64 * t;
            sum[1] += a.y as f64 + (b.y - a.y) as f64 * t;
            sum[2] += a.z as f64 + (b.z - a.z) as f64 * t;
            count += 1.0;
        }
    }
    assert_eq!(count as u32, sp.crossings());
    [sum[0] / count, sum[1] / count, sum[2] / count]
}

fn unit_normal(sp: &SurfacePoint) -> [f64; 3] {
    let g = sp.gradient();
    let len = ((g.x * g.x + g.y * g.y + g.z * g.z) as f64).sqrt();
    [g.x as f64 / len, g.y as f64 / len, g.z as f64 / len]
}

#[test]
fn sphere_gets_a_mesh_for_every_chunk_that_it_crosses() {
    let mut m = manager(1, 20);
    let cur = ivec3(0, 0, 0);
    m.generate_chunks(cur, &sphere);
    check_invariants(&m);
    let built = ChunkManager::nearby_coords(cur, 1)
        .iter()
        .filter(|c| m.chunks.contains_key(&m.chunk_coord2key(**c)))
        .count();
    assert_eq!(built, 20);
    assert_eq!(m.queue_chunk.len(), 7);
    drain(&mut m, cur, &sphere);
    check_invariants(&m);
    let visible = m.visible_meshes(cur);
    assert_eq!(visible.len(), 7);
    let mut crossed = 0;
    let mut points = 0;
    for c in ChunkManager::nearby_coords(cur, 1) {
        let key = m.chunk_coord2key(c);
        let chunk = m.chunks.get(&key).unwrap();
        let surface = m.surface_maps.get(&key).unwrap();
        let mut here = 0;
        for z in 0..8 {
            for y in 0..8 {
                for x in 0..8 {
                    let v = ivec3(x, y, z);
                    if at_world_edge(c, v) {
                        continue;
                    }
                    if let Some(node) = surface.get(&chunk.coord2loc(v)) {
                        let local = local_position(&node.value);
                        let pos = chunk.coord2pos(v);
                        let p = [
                            pos.x as f64 + local[0],
                            pos.y as f64 + local[1],
                            pos.z as f64 + local[2],
                        ];
                        let r = (p[0] * p[0] + p[1] * p[1] + p[2] * p[2]).sqrt();
                        assert!((r - 5.0).abs() < 0.5, "point {:?} at radius {}", p, r);
                        here += 1;
                    }
                }
            }
        }
        points += here;
        if here > 0 {
            crossed += 1;
        }
        if here > 0 {
            assert_eq!(c.x.abs() + c.y.abs() + c.z.abs() <= 1, true);
            assert!(m.meshes.contains_key(&key));
            assert_eq!(here, if c == cur { 200 } else { 48 });
        }
        // the far corner chunk lies wholly outside the sphere
        if c == ivec3(1, 1, 1) {
            assert_eq!(here, 0);
        }
        if let Some(mesh) = m.meshes.get(&key) {
            assert!(here > 0);
            assert!(!mesh.is_empty());
            assert_eq!(mesh.next_ind % 3, 0);
            for i in 0..mesh.next_ind {
                assert!((mesh.inds[i] as usize) < mesh.next_vert);
            }
        }
    }
    // the sphere of radius 5 crosses the chunk at the centre, which spans the
    // positions -4 to 4, and the six chunks at its faces
    assert_eq!(crossed, 7);
    assert_eq!(points, 488);
    // a chunk that the sphere does not cross has a surface without points
    // and no mesh
    for c in [ivec3(1, 1, 0), ivec3(-1, -1, -1), ivec3(1, 1, 1), ivec3(0, -1, 1)] {
        assert!(m.surface_maps.get(&m.chunk_coord2key(c)).unwrap().is_empty());
        assert!(!m.meshes.contains_key(&m.chunk_coord2key(c)));
    }
}

#[test]
fn plane_shows_only_where_the_chunks_span_it() {
    let mut m = manager(1, 1000);
    let cur = ivec3(0, 0, 0);
    drain(&mut m, cur, &plane);
    check_invariants(&m);
    for c in ChunkManager::nearby_coords(cur, 1) {
        let key = m.chunk_coord2key(c);
        let chunk = m.chunks.get(&key).unwrap();
        let surface = m.surface_maps.get(&key).unwrap();
        // the plane y = 0 runs through the chunks of the middle layer, whose
        // voxels span the positions -4 to 4
        for z in 0..8 {
            for y in 0..8 {
                for x in 0..8 {
                    let node = surface.get(&chunk.coord2loc(ivec3(x, y, z)));
                    let above_top = at_world_edge(c, ivec3(x, y, z));
                    if c.y == 0 && y == 4 && !above_top {
                        let sp = node.unwrap().value;
                        let n = unit_normal(&sp);
                        // the normal points along the gradient of the field:
                        // along the y axis
                        let off = (n[0] * n[0] + (n[1] - 1.0) * (n[1] - 1.0) + n[2] * n[2]).sqrt();
                        assert!(off < 0.2);
                        let local = local_position(&sp);
                        assert!((chunk.coord2pos(ivec3(x, y, z)).y as f64 + local[1]).abs() < 0.2);
                    } else if !above_top {
                        assert!(node.is_none(), "chunk {:?} voxel {:?}", c, (x, y, z));
                    }
                }
            }
        }
        // only the chunks of the middle layer produce a mesh
        assert_eq!(m.meshes.contains_key(&key), c.y == 0);
        if c.y != 0 {
            assert!(surface.is_empty());
        }
    }
    // inside the world the middle layer shows the plane
    let middle = m.meshes.get(&m.chunk_coord2key(ivec3(0, 0, 0))).unwrap();
    assert!(!middle.is_empty());
    assert_eq!(middle.next_vert, 64 + 8 + 8 + 1);
    assert_eq!(middle.next_ind, 64 * 6);
}

#[test]
fn flat_field_has_no_surface() {
    let mut m = manager(1, 7);
    let cur = ivec3(2, -3, 1);
    drain(&mut m, cur, &flat);
    for c in ChunkManager::nearby_coords(cur, 1) {
        let key = m.chunk_coord2key(c);
        assert_eq!(m.chunks.get(&key).unwrap().get_voxel_by_coord(ivec3(1, 2, 3)), 192);
        assert!(m.surface_maps.get(&key).unwrap().is_empty());
        assert!(!m.meshes.contains_key(&key));
        assert!(!m.operation_pending.contains(&key));
    }
    assert!(m.meshes.keys().is_empty());
    assert!(m.visible_meshes(cur).is_empty());
    assert_eq!(m.chunks.keys().len(), 27);
    assert_eq!(m.surface_maps.keys().len(), 27);
    assert!(m.queue_chunk.is_empty() && m.queue_sfp.is_empty() && m.queue_mesh.is_empty());
}

#[test]
fn frames_keep_the_queues_and_tables_in_order() {
    let mut m = manager(1, 3);
    assert_eq!(m.chunk_degree, 3);
    assert_eq!(m.chunk_size, 8);
    let cur = ivec3(0, 0, 0);
    let mut frames = 0;
    loop {
        m.generate_chunks(cur, &sphere);
        check_invariants(&m);
        frames += 1;
        // the updated chunks of a frame are those whose mesh it built
        let mut updated = 0;
        for c in ChunkManager::nearby_coords(cur, 2) {
            let key = m.chunk_coord2key(c);
            if m.chunk_updated.contains(&key) {
                assert!(m.surface_maps.contains_key(&key));
                assert!(!m.operation_pending.contains(&key));
                updated += 1;
            }
        }
        assert!(updated <= 3);
        if m.queue_chunk.is_empty() && m.queue_sfp.is_empty() && m.queue_mesh.is_empty() {
            break;
        }
        assert!(frames < 1000);
    }
    // 27 chunks pass three stages each; no chunk is woken, as all were pending
    assert_eq!(frames, 27);
}

#[test]
fn stages_run_in_order_and_last_in_first_out() {
    let mut m = manager(1, 1);
    let cur = ivec3(0, 0, 0);
    m.generate_chunks(cur, &flat);
    // the scan has queued 27 chunks, nearest first, and the one operation of
    // the frame has taken the last of them
    assert_eq!(m.queue_chunk.len(), 26);
    assert_eq!(m.queue_chunk[0], cur);
    assert_eq!(m.queue_sfp, vec![ivec3(1, 1, 0)]);
    assert!(m.chunks.contains_key(&m.chunk_coord2key(ivec3(1, 1, 0))));
    m.generate_chunks(cur, &flat);
    // the first stage goes on while chunks wait for it
    assert_eq!(m.queue_chunk.len(), 25);
    // the chunk before (1, 0, 0) is woken: its surface reaches into the new chunk
    assert_eq!(m.queue_sfp, vec![ivec3(1, 1, 0), ivec3(0, 1, 0)]);
    for _ in 0..25 {
        m.generate_chunks(cur, &flat);
    }
    assert!(m.queue_chunk.is_empty());
    assert_eq!(m.queue_sfp.len(), 27);
    assert!(m.queue_mesh.is_empty());
    let last = *m.queue_sfp.last().unwrap();
    m.generate_chunks(cur, &flat);
    assert_eq!(m.queue_sfp.len(), 26);
    assert_eq!(*m.queue_mesh.last().unwrap(), last);
    assert!(m.surface_maps.contains_key(&m.chunk_coord2key(last)));
    for c in ChunkManager::nearby_coords(cur, 1) {
        assert!(!m.meshes.contains_key(&m.chunk_coord2key(c)));
    }
}

#[test]
fn a_second_frame_after_the_drain_changes_nothing() {
    let mut m = manager(1, 400);
    let cur = ivec3(0, 0, 0);
    m.generate_chunks(cur, &sphere);
    assert!(m.queue_chunk.is_empty() && m.queue_sfp.is_empty() && m.queue_mesh.is_empty());
    let before: Vec<([u8; 12], Vec<u32>, usize)> =
        m.visible_meshes(cur).iter().map(|(k, mesh)| (*k, mesh.inds.to_vec(), mesh.next_vert)).collect();
    assert_eq!(before.len(), 7);
    let mut updated = 0;
    for c in ChunkManager::nearby_coords(cur, 1) {
        if m.chunk_updated.contains(&m.chunk_coord2key(c)) {
            updated += 1;
        }
    }
    assert_eq!(updated, 27);
    m.generate_chunks(cur, &sphere);
    let after: Vec<([u8; 12], Vec<u32>, usize)> =
        m.visible_meshes(cur).iter().map(|(k, mesh)| (*k, mesh.inds.to_vec(), mesh.next_vert)).collect();
    assert_eq!(before, after);
    for c in ChunkManager::nearby_coords(cur, 1) {
        assert!(!m.chunk_updated.contains(&m.chunk_coord2key(c)));
    }
    assert!(m.queue_chunk.is_empty() && m.queue_sfp.is_empty() && m.queue_mesh.is_empty());
    check_invariants(&m);
}

#[test]
fn visible_meshes_come_nearest_first_under_their_keys() {
    let mut m = manager(1, 400);
    let cur = ivec3(0, 0, 0);
    m.generate_chunks(cur, &plane);
    let visible = m.visible_meshes(cur);
    // the chunks of the layer of the plane, in the order of the visit
    let coords: Vec<IVec3> =
        ChunkManager::nearby_coords(cur, 1).into_iter().filter(|c| c.y == 0).collect();
    assert_eq!(coords.len(), 9);
    assert_eq!(visible.len(), coords.len());
    for (i, (key, _)) in visible.iter().enumerate() {
        assert_eq!(*key, m.chunk_coord2key(coords[i]));
        assert_eq!(key2coord(key), coords[i].scaled(8));
    }
    // a viewer that has moved sees only what is built
    let moved = m.visible_meshes(ivec3(2, 0, 0));
    assert_eq!(moved.len(), 3);
    for (key, _) in &moved {
        assert_eq!(key2coord(key).x, 8);
        assert_eq!(key2coord(key).y, 0);
    }
}

#[test]
fn the_renderer_gets_a_slot_for_every_visible_mesh() {
    let mut m = manager(1, 400);
    let cur = ivec3(0, 0, 0);
    m.generate_chunks(cur, &sphere);
    let mut buffers = IndexedBufferManager::new(2, 16 * 24576);
    let writes = buffers.update(&m.visible_meshes(cur), &m.chunk_updated);
    assert_eq!(writes.len(), 7);
    assert_eq!(buffers.buckets.len(), 7);
    m.generate_chunks(cur, &sphere);
    let none: SeaHashSet<[u8; 12]> = SeaHashSet::new();
    assert!(buffers.update(&m.visible_meshes(cur), &m.chunk_updated).is_empty());
    assert!(buffers.update(&m.visible_meshes(cur), &none).is_empty());
}

#[test]
fn mesh_joins_the_surface_points_of_four_voxels() {
    let mut m = manager(1, 400);
    let cur = ivec3(0, 0, 0);
    m.generate_chunks(cur, &plane);
    let key = m.chunk_coord2key(cur);
    let chunk = m.chunks.get(&key).unwrap();
    let mesh = m.meshes.get(&key).unwrap();
    // the first quad belongs to the voxel (0, 4, 0): its sample is inside, the
    // one above it outside, and the three voxels behind it lie in the chunks
    // before this one
    assert_eq!(chunk.get_voxel_by_coord(ivec3(0, 4, 0)), 128);
    assert_eq!(chunk.get_voxel_by_coord(ivec3(0, 5, 0)), 192);
    assert_eq!(&mesh.inds[0..6], &[0, 1, 2, 0, 2, 3]);
    assert_eq!(mesh.verts[0].voxel, ivec3(0, 4, 0));
    assert_eq!(mesh.verts[1].voxel, ivec3(-1, 4, 0));
    assert_eq!(mesh.verts[2].voxel, ivec3(-1, 4, -1));
    assert_eq!(mesh.verts[3].voxel, ivec3(0, 4, -1));
    assert_eq!(mesh.verts[0].point.corners, [0, 0, 64, 0, 64, 0, 64, 64]);
    // the next voxel shares two of them
    assert_eq!(&mesh.inds[6..12], &[4, 0, 3, 4, 3, 5]);
    assert_eq!(mesh.verts[4].voxel, ivec3(1, 4, 0));
    assert_eq!(mesh.verts[5].voxel, ivec3(1, 4, -1));
    assert_eq!(m.get_sfp_by_coord(chunk, ivec3(0, 4, 0)).map(|p| p.corners), Some(mesh.verts[0].point.corners));
    assert!(m.get_sfp_by_coord(chunk, ivec3(0, 3, 0)).is_none());
    assert!(m.has_surface_map(cur));
    assert!(!m.has_surface_map(ivec3(5, 5, 5)));
}
