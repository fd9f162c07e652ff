use sdf_terrain::math::coord2ind;
use sdf_terrain::math::coord2key;
use sdf_terrain::math::coord2mixed;
use sdf_terrain::math::coord2pos;
use sdf_terrain::math::chunk2pos;
use sdf_terrain::math::floor_div;
use sdf_terrain::math::ind2coord;
use sdf_terrain::math::is_intersection;
use sdf_terrain::math::isign;
use sdf_terrain::math::ivec3;
use sdf_terrain::math::key2coord;
use sdf_terrain::math::key2mixed;
use sdf_terrain::math::key2mixedkey;
use sdf_terrain::math::pos2chunk;
use sdf_terrain::math::pos2coord;
use sdf_terrain::math::pos2ind;
use sdf_terrain::math::positive_modulo;
use sdf_terrain::math::signed_rem;

#[test]
fn positive_modulo_is_never_negative() {
    assert_eq!(positive_modulo(7, 8), 7);
    assert_eq!(positive_modulo(8, 8), 0);
    assert_eq!(positive_modulo(-1, 8), 7);
    assert_eq!(positive_modulo(-8, 8), 0);
    assert_eq!(positive_modulo(-9, 8), 7);
    assert_eq!(positive_modulo(i32::MIN, 8), 0);
    assert_eq!(positive_modulo(i32::MAX, i32::MAX), 0);
    assert_eq!(positive_modulo(-1, i32::MAX), i32::MAX - 1);
}

#[test]
fn floor_div_rounds_down() {
    assert_eq!(floor_div(7, 8), 0);
    assert_eq!(floor_div(8, 8), 1);
    assert_eq!(floor_div(-1, 8), -1);
    assert_eq!(floor_div(-8, 8), -1);
    assert_eq!(floor_div(-9, 8), -2);
    assert_eq!(floor_div(9, -8), -2);
    assert_eq!(floor_div(-9, -8), 1);
    assert_eq!(floor_div(i32::MIN, 2), -(1 << 30));
    assert_eq!(floor_div(i32::MIN, -2), 1 << 30);
    assert_eq!(floor_div(i32::MAX, -1), -i32::MAX);
    assert_eq!(floor_div(0, -3), 0);
}

#[test]
fn signs_and_crossings() {
    assert_eq!(isign(5), 1);
    assert_eq!(isign(0), -1);
    assert_eq!(isign(-5), -1);
    assert!(is_intersection(1, 0));
    assert!(is_intersection(-3, 7));
    assert!(!is_intersection(0, -1));
    assert!(!is_intersection(2, 9));
}

#[test]
fn keys_are_the_native_bytes_of_the_axes() {
    let c = ivec3(1, -2, 0x0102_0304);
    let key = coord2key(c);
    assert_eq!(&key[0..4], &1i32.to_ne_bytes());
    assert_eq!(&key[4..8], &(-2i32).to_ne_bytes());
    assert_eq!(&key[8..12], &0x0102_0304i32.to_ne_bytes());
    assert_eq!(key2coord(&key), c);
    assert_ne!(coord2key(ivec3(1, 0, 0)), coord2key(ivec3(0, 1, 0)));
    for c in [ivec3(0, 0, 0), ivec3(i32::MIN, i32::MAX, -1), ivec3(255, 256, 65536)] {
        assert_eq!(key2coord(&coord2key(c)), c);
    }
}

#[test]
fn grid_places_and_back() {
    assert_eq!(coord2ind(ivec3(0, 0, 0), 8), 0);
    assert_eq!(coord2ind(ivec3(7, 0, 0), 8), 7);
    assert_eq!(coord2ind(ivec3(0, 1, 0), 8), 8);
    assert_eq!(coord2ind(ivec3(0, 0, 1), 8), 64);
    assert_eq!(coord2ind(ivec3(3, 2, 1), 8), 83);
    assert_eq!(coord2ind(ivec3(7, 7, 7), 8), 511);
    assert_eq!(ind2coord(83, 8), ivec3(3, 2, 1));
    assert_eq!(ind2coord(511, 8), ivec3(7, 7, 7));
    for ind in 0..512 {
        assert_eq!(coord2ind(ind2coord(ind, 8), 8), ind);
    }
}

#[test]
fn positions_chunks_and_remainders() {
    assert_eq!(coord2pos(ivec3(3, 2, 1), ivec3(1, -1, 0), 8), ivec3(11, -6, 1));
    assert_eq!(chunk2pos(ivec3(2, -3, 0), 8), ivec3(16, -24, 0));
    assert_eq!(pos2chunk(ivec3(11, -6, 1), 8), ivec3(1, -1, 0));
    assert_eq!(pos2chunk(ivec3(-8, -9, 8), 8), ivec3(-1, -2, 1));
    assert_eq!(pos2ind(ivec3(11, -6, 1), 8), 3 + (2 + 8) * 8);
    assert_eq!(signed_rem(11, 8), 3);
    assert_eq!(signed_rem(-6, 8), -6);
    assert_eq!(signed_rem(-9, 8), -1);
    assert_eq!(signed_rem(i32::MIN, 1), 0);
    assert_eq!(pos2coord(ivec3(11, -9, 16), 8), ivec3(3, -1, 0));
    assert_eq!(coord2mixed(ivec3(11, -9, 16), 8), (ivec3(8, -8, 16), ivec3(3, -1, 0)));
}

#[test]
fn keys_split_like_their_positions() {
    let key = coord2key(ivec3(11, -9, 16));
    assert_eq!(key2mixed(key, 8), (ivec3(8, -8, 16), ivec3(3, -1, 0)));
    let (a, b) = key2mixedkey(key, 8);
    assert_eq!(a, coord2key(ivec3(8, -8, 16)));
    assert_eq!(b, coord2key(ivec3(3, -1, 0)));
}

#[test]
fn vectors_add_and_scale() {
    let a = ivec3(1, 2, 3);
    let b = ivec3(-4, 5, 0);
    assert_eq!(a.plus(b), ivec3(-3, 7, 3));
    assert_eq!(a.minus(b), ivec3(5, -3, 3));
    assert_eq!(b.scaled(8), ivec3(-32, 40, 0));
}
