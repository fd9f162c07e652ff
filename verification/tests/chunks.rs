use sdf_terrain::direction::IDirection;
use sdf_terrain::math::ivec3;
use sdf_terrain::math::IVec3;
use sdf_terrain::world::chunk::WorldChunk;
use sdf_terrain::world::manager::ChunkManager;

fn plane(p: IVec3) -> u8 {
    (p.y * 64 + 128).clamp(0, 255) as u8
}

fn noisy(p: IVec3) -> u8 {
    let h = (p.x.wrapping_mul(73_856_093)) ^ (p.y.wrapping_mul(19_349_663)) ^ (p.z.wrapping_mul(83_492_791));
    (h & 0xFF) as u8
}

fn blocky(p: IVec3) -> u8 {
    if p.x >= 0 && p.y >= 0 {
        200
    } else {
        50
    }
}

#[test]
fn nearby_of_distance_zero_is_the_centre() {
    let orig = ivec3(3, -4, 5);
    assert_eq!(ChunkManager::nearby_coords(orig, 0), vec![orig]);
    assert_eq!(ChunkManager::nearby_coords(orig, -1), Vec::<IVec3>::new());
}

fn shell(orig: IVec3, c: IVec3) -> i32 {
    (c.x - orig.x).abs().max((c.y - orig.y).abs()).max((c.z - orig.z).abs())
}

#[test]
fn nearby_visits_every_chunk_once_shell_by_shell() {
    let orig = ivec3(10, -20, 30);
    for dist in 1..4 {
        let coords = ChunkManager::nearby_coords(orig, dist);
        let side = (2 * dist + 1) as usize;
        assert_eq!(coords.len(), side * side * side);
        assert_eq!(coords[0], orig);
        for (i, c) in coords.iter().enumerate() {
            assert!(shell(orig, *c) <= dist);
            for d in &coords[i + 1..] {
                assert_ne!(c, d);
                assert!(shell(orig, *c) <= shell(orig, *d));
            }
        }
        for z in -dist..=dist {
            for y in -dist..=dist {
                for x in -dist..=dist {
                    assert!(coords.contains(&ivec3(orig.x + x, orig.y + y, orig.z + z)));
                }
            }
        }
    }
}

#[test]
fn nearby_visits_the_caps_before_the_cylinder() {
    let orig = ivec3(0, 0, 0);
    let coords = ChunkManager::nearby_coords(orig, 2);
    // shell 1 takes the places 1..27: nine in front, nine behind, eight around
    for c in &coords[1..10] {
        assert_eq!(c.z, 1);
    }
    for c in &coords[10..19] {
        assert_eq!(c.z, -1);
    }
    for c in &coords[19..27] {
        assert_eq!(c.z, 0);
        assert_eq!(shell(orig, *c), 1);
    }
    assert_eq!(coords[1], ivec3(-1, -1, 1));
    assert_eq!(coords[9], ivec3(1, 1, 1));
    assert_eq!(coords[19], ivec3(-1, -1, 0));
    assert_eq!(coords[26], ivec3(1, 1, 0));
    assert_eq!(coords[27], ivec3(-2, -2, 2));
    assert_eq!(coords[124], ivec3(2, 2, 1));
}

#[test]
fn neighbor_step_across_the_border_wraps() {
    let chunk = WorldChunk::new(ivec3(0, 0, 0), 3, &plane);
    let dirs = IDirection::positive_dirs();
    let steps = chunk.neighbor_coords(ivec3(7, 0, 0), &dirs);
    assert_eq!(steps[0], (0, ivec3(7, 0, 0)));
    assert_eq!(steps[1], (1, ivec3(0, 0, 0)));
    assert_eq!(steps[2], (0, ivec3(7, 1, 0)));
    assert_eq!(steps[3], (0, ivec3(7, 0, 1)));
    assert_eq!(steps[4], (1, ivec3(0, 1, 0)));
    let steps = chunk.neighbor_coords(ivec3(7, 7, 7), &dirs);
    assert_eq!(steps[1], (1, ivec3(0, 7, 7)));
    assert_eq!(steps[2], (2, ivec3(7, 0, 7)));
    assert_eq!(steps[3], (3, ivec3(7, 7, 0)));
    assert_eq!(steps[4], (4, ivec3(0, 0, 7)));
    assert_eq!(steps[5], (5, ivec3(0, 7, 0)));
    assert_eq!(steps[6], (6, ivec3(7, 0, 0)));
    assert_eq!(steps[7], (7, ivec3(0, 0, 0)));
    let back = IDirection::negative_dirs();
    let steps = chunk.neighbor_coords(ivec3(0, 3, 0), &back);
    assert_eq!(steps[1], (1, ivec3(7, 3, 0)));
    assert_eq!(steps[2], (0, ivec3(0, 2, 0)));
    assert_eq!(steps[3], (3, ivec3(0, 3, 7)));
    assert_eq!(steps[7], (5, ivec3(7, 2, 7)));
}

#[test]
fn neighbor_step_inside_the_chunk_enters_no_neighbour() {
    let chunk = WorldChunk::new(ivec3(0, 0, 0), 3, &plane);
    let dirs = IDirection::positive_dirs();
    for z in 0..7 {
        for y in 0..7 {
            for x in 0..7 {
                let c = ivec3(x, y, z);
                let steps = chunk.neighbor_coords(c, &dirs);
                for i in 0..8 {
                    assert_eq!(steps[i], (0, c.plus(dirs[i])));
                }
            }
        }
    }
}

#[test]
fn tree_gives_back_every_sample() {
    for field in [plane as fn(IVec3) -> u8, noisy, blocky] {
        for coord in [ivec3(0, 0, 0), ivec3(-1, 2, 5)] {
            let chunk = WorldChunk::new(coord, 3, &field);
            for z in 0..8 {
                for y in 0..8 {
                    for x in 0..8 {
                        let c = ivec3(x, y, z);
                        let pos = chunk.coord2pos(c);
                        assert_eq!(pos, ivec3(x - 4 + coord.x * 8, y - 4 + coord.y * 8, z - 4 + coord.z * 8));
                        assert_eq!(chunk.get_voxel_by_coord(c), field(pos));
                    }
                }
            }
        }
    }
}

#[test]
fn tree_of_a_flat_field_is_the_root_alone() {
    let flat = |_p: IVec3| 192u8;
    let chunk = WorldChunk::new(ivec3(0, 0, 0), 3, &flat);
    assert_eq!(chunk.sdftree.get(&1).map(|n| (n.mask, n.value)), Some((0, 192)));
    for loc in 2..(1u64 << 10) {
        assert!(!chunk.sdftree.contains_key(&loc));
    }
    assert_eq!(chunk.get_voxel_by_coord(ivec3(5, 6, 7)), 192);
}

#[test]
fn tree_keeps_a_node_that_differs_from_its_parent() {
    // one voxel differs: the chain of its ancestors is kept, nothing else
    let dot = |p: IVec3| if p == ivec3(3, 3, 3) { 10u8 } else { 200u8 };
    let chunk = WorldChunk::new(ivec3(0, 0, 0), 3, &dot);
    // the position (3, 3, 3) is the voxel (7, 7, 7)
    assert_eq!(chunk.get_voxel_by_coord(ivec3(7, 7, 7)), 10);
    let root = chunk.sdftree.get_node(&1);
    assert_eq!((root.mask, root.value), (0b1000_0000, 200));
    let a = chunk.sdftree.get_node(&0b1_111);
    assert_eq!((a.mask, a.value), (0b1000_0000, 200));
    let b = chunk.sdftree.get_node(&0b1_111_111);
    assert_eq!((b.mask, b.value), (0b1000_0000, 200));
    let leaf = chunk.sdftree.get_node(&0b1_111_111_111);
    assert_eq!((leaf.mask, leaf.value), (0, 10));
    let mut count = 0;
    for loc in 1..(1u64 << 10) {
        if chunk.sdftree.contains_key(&loc) {
            count += 1;
        }
    }
    assert_eq!(count, 4);
    let family: Vec<u8> = chunk.sdftree.get_children(0b1_111_111).iter().map(|n| n.value).collect();
    assert_eq!(family, vec![200, 10]);
}

#[test]
fn chunk_of_one_voxel_has_one_node() {
    let chunk = WorldChunk::new(ivec3(2, 0, -1), 0, &noisy);
    assert_eq!(chunk.midpoint, ivec3(0, 0, 0));
    assert_eq!(chunk.size(), 1);
    let root = chunk.sdftree.get_node(&1);
    assert_eq!((root.mask, root.value), (0, noisy(ivec3(2, 0, -1))));
    for loc in 2..64u64 {
        assert!(!chunk.sdftree.contains_key(&loc));
    }
    assert_eq!(chunk.coord2loc(ivec3(0, 0, 0)), 1);
    assert_eq!(chunk.get_voxel_by_coord(ivec3(0, 0, 0)), noisy(ivec3(2, 0, -1)));
    // a uniform field around it gives no surface
    let flat = |_p: IVec3| 192u8;
    let lone = WorldChunk::new(ivec3(0, 0, 0), 0, &flat);
    let none: Vec<Option<&WorldChunk>> = vec![None; 8];
    assert!(lone.surface_tree(&none).is_empty());
}

#[test]
fn sample_of_a_node_is_asked_at_its_corner() {
    let chunk = WorldChunk::new(ivec3(1, 0, 0), 3, &plane);
    let echo = |p: IVec3| (p.x + 2 * p.y + 3 * p.z) as u8;
    // the root stands at the lower corner of the chunk
    assert_eq!(chunk.sample_df_value(1, &echo), echo(ivec3(4, -4, -4)));
    assert_eq!(chunk.sample_df_value(0b1_001, &echo), echo(ivec3(8, -4, -4)));
    assert_eq!(chunk.sample_df_value(0b1_111_111_111, &echo), echo(ivec3(11, 3, 3)));
}

#[test]
fn neighbor_dist_reads_across_the_border() {
    let own = WorldChunk::new(ivec3(0, 0, 0), 3, &plane);
    let right = WorldChunk::new(ivec3(1, 0, 0), 3, &noisy);
    let dirs = IDirection::unit_dirs();
    let with: Vec<Option<&WorldChunk>> = vec![Some(&own), Some(&right), None, None];
    let dists = own.neighbor_dist(ivec3(7, 4, 0), &dirs, &with);
    assert_eq!(dists[0], plane(ivec3(3, 0, -4)) as i32 - 128);
    assert_eq!(dists[1], noisy(ivec3(4, 0, -4)) as i32 - 128);
    assert_eq!(dists[2], plane(ivec3(3, 1, -4)) as i32 - 128);
    assert_eq!(dists[0], 0);
    assert_eq!(dists[2], 64);
    // a missing neighbour is read from the chunk itself, at the wrapped voxel
    let without: Vec<Option<&WorldChunk>> = vec![None, None, None, None];
    let dists = own.neighbor_dist(ivec3(7, 7, 0), &dirs, &without);
    assert_eq!(dists[1], plane(ivec3(-4, 3, -4)) as i32 - 128);
    assert_eq!(dists[2], plane(ivec3(3, -4, -4)) as i32 - 128);
    assert_eq!(dists[2], -128);
}

#[test]
fn surface_of_a_plane_lies_in_one_layer() {
    let chunk = WorldChunk::new(ivec3(0, 0, 0), 3, &plane);
    let none: Vec<Option<&WorldChunk>> = vec![None; 8];
    let tree = chunk.surface_tree(&none);
    for z in 0..8 {
        for y in 0..8 {
            for x in 0..8 {
                let c = ivec3(x, y, z);
                let node = tree.get(&chunk.coord2loc(c));
                // the field is zero at y = 4 and counts as inside there: the
                // crossing lies between y = 4 and y = 5; the top layer sees
                // the wrapped bottom of the chunk itself
                if y == 4 || y == 7 {
                    let sp = node.unwrap().value;
                    assert_eq!(node.unwrap().mask, 0);
                    assert_eq!(sp.crossings(), 4);
                    if y == 4 {
                        assert_eq!(sp.corners, [0, 0, 64, 0, 64, 0, 64, 64]);
                        assert_eq!(sp.gradient(), ivec3(0, 256, 0));
                        assert_eq!(sp.edge_crossing(1), Some((0, -64)));
                    }
                    assert_eq!(chunk.surface_point(c, &none).map(|p| p.corners), Some(sp.corners));
                } else {
                    assert!(node.is_none());
                    assert!(chunk.surface_point(c, &none).is_none());
                }
            }
        }
    }
}
