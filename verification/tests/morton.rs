use sdf_terrain::math::ivec3;
use sdf_terrain::math::IVec3;
use sdf_terrain::world::chunk::WorldChunk;

fn flat(_p: IVec3) -> u8 {
    192
}

#[test]
fn morton_codes_of_the_corners() {
    let chunk = WorldChunk::new(ivec3(0, 0, 0), 3, &flat);
    assert_eq!(chunk.coord2loc(ivec3(0, 0, 0)), 0b1_000_000_000);
    assert_eq!(chunk.coord2loc(ivec3(7, 7, 7)), 0b1_111_111_111);
    assert_eq!(chunk.loc2coord(0b1_000_000_000), ivec3(0, 0, 0));
    assert_eq!(chunk.loc2coord(0b1_111_111_111), ivec3(7, 7, 7));
}

#[test]
fn morton_interleaves_x_lowest() {
    let chunk = WorldChunk::new(ivec3(0, 0, 0), 3, &flat);
    assert_eq!(chunk.coord2loc(ivec3(1, 0, 0)), 0b1_000_000_001);
    assert_eq!(chunk.coord2loc(ivec3(0, 1, 0)), 0b1_000_000_010);
    assert_eq!(chunk.coord2loc(ivec3(0, 0, 1)), 0b1_000_000_100);
    assert_eq!(chunk.coord2loc(ivec3(4, 0, 0)), 0b1_001_000_000);
    assert_eq!(chunk.coord2loc(ivec3(5, 3, 6)), 0b1_101_110_011);
}

#[test]
fn splitby3_and_thirdbits_are_inverse() {
    assert_eq!(WorldChunk::splitby3(0), 0);
    assert_eq!(WorldChunk::splitby3(1), 1);
    assert_eq!(WorldChunk::splitby3(0b11), 0b1001);
    assert_eq!(WorldChunk::splitby3(0b101), 0b1_000_001);
    assert_eq!(WorldChunk::splitby3(0x1F_FFFF), 0x1249_2492_4924_9249);
    assert_eq!(WorldChunk::splitby3(0xFFFF_FFFF), 0x1249_2492_4924_9249);
    assert_eq!(WorldChunk::thirdbits(0x1249_2492_4924_9249), 0x1F_FFFF);
    assert_eq!(WorldChunk::thirdbits(0b1_000_001), 0b101);
    assert_eq!(WorldChunk::thirdbits(0b110), 0);
    for a in [0u32, 1, 2, 3, 77, 1023, 4096, 0x1F_FFFF] {
        assert_eq!(WorldChunk::thirdbits(WorldChunk::splitby3(a)), a as u64);
    }
}

#[test]
fn morton_round_trip_over_a_whole_chunk() {
    let chunk = WorldChunk::new(ivec3(0, 0, 0), 3, &flat);
    for z in 0..8 {
        for y in 0..8 {
            for x in 0..8 {
                let c = ivec3(x, y, z);
                let loc = chunk.coord2loc(c);
                assert_eq!(loc >> 9, 1);
                assert_eq!(chunk.loc2coord(loc), c);
            }
        }
    }
}

#[test]
fn code_of_an_ancestor_names_the_lower_corner() {
    let chunk = WorldChunk::new(ivec3(0, 0, 0), 3, &flat);
    assert_eq!(chunk.loc2coord(1), ivec3(0, 0, 0));
    assert_eq!(chunk.loc2coord(0b1_001), ivec3(4, 0, 0));
    assert_eq!(chunk.loc2coord(0b1_111), ivec3(4, 4, 4));
    assert_eq!(chunk.loc2coord(0b1_111_010), ivec3(4, 6, 4));
    // the code of that corner at full degree has the ancestor as its prefix
    for loc in [1u64, 0b1_001, 0b1_111, 0b1_111_010, 0b1_000_101] {
        let degree = (63 - loc.leading_zeros()) / 3;
        let full = chunk.coord2loc(chunk.loc2coord(loc));
        assert_eq!(63 - full.leading_zeros(), 9);
        assert_eq!(full >> (3 * (3 - degree)), loc);
    }
}

#[test]
fn codes_of_the_deepest_tree() {
    let chunk = WorldChunk {
        coord: ivec3(0, 0, 0),
        degree: 21,
        midpoint: ivec3(1 << 20, 1 << 20, 1 << 20),
        sdftree: sdf_terrain::octree::Octree::new(21),
        samples: WorldChunk::new(ivec3(0, 0, 0), 0, &flat).samples,
    };
    let far = (1 << 21) - 1;
    assert_eq!(chunk.coord2loc(ivec3(0, 0, 0)), 1 << 63);
    assert_eq!(chunk.coord2loc(ivec3(far, far, far)), u64::MAX);
    assert_eq!(chunk.loc2coord(u64::MAX), ivec3(far, far, far));
    assert_eq!(chunk.loc2coord(1), ivec3(0, 0, 0));
    assert_eq!(chunk.loc2coord(0b1_001), ivec3(1 << 20, 0, 0));
}
