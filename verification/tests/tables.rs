use sdf_terrain::direction::IDirection;
use sdf_terrain::generator::DistanceField;
use sdf_terrain::hasher::keys_equal;
use sdf_terrain::hasher::SeaHashMap;
use sdf_terrain::hasher::SeaHashSet;
use sdf_terrain::math::coord2key;
use sdf_terrain::math::ivec3;
use sdf_terrain::octree::Octree;
use sdf_terrain::octree::OctreeNode;
use sdf_terrain::octree::SurfacePoint;

#[test]
fn direction_tables_agree() {
    let pos = IDirection::positive_dirs();
    let neg = IDirection::negative_dirs();
    assert_eq!(pos[0], IDirection::zero());
    assert_eq!(pos[1], ivec3(1, 0, 0));
    assert_eq!(pos[4], ivec3(1, 1, 0));
    assert_eq!(pos[5], ivec3(1, 0, 1));
    assert_eq!(pos[6], ivec3(0, 1, 1));
    assert_eq!(pos[7], ivec3(1, 1, 1));
    for i in 0..8 {
        assert_eq!(neg[i], ivec3(-pos[i].x, -pos[i].y, -pos[i].z));
    }
    let unit = IDirection::unit_dirs();
    for i in 0..4 {
        assert_eq!(unit[i], pos[i]);
    }
    let table = IDirection::bitwise_to_dirs();
    assert_eq!(table, [0, 1, 2, 4, 3, 5, 6, 7]);
    for bits in 0..8usize {
        let d = pos[table[bits]];
        assert_eq!((d.x, d.y, d.z), ((bits & 1) as i32, ((bits >> 1) & 1) as i32, (bits >> 2) as i32));
    }
    assert_eq!(IDirection::sfp_inds(), [(3, 6, 2), (1, 5, 3), (2, 4, 1)]);
}

#[test]
fn edges_run_along_one_axis() {
    let pos = IDirection::positive_dirs();
    let edges = IDirection::edge_inds();
    assert_eq!(edges.len(), 12);
    assert_eq!(edges[0], (0, 1));
    assert_eq!(edges[11], (6, 7));
    for (a, b) in edges {
        let d = pos[b].minus(pos[a]);
        assert_eq!(d.x + d.y + d.z, 1);
        assert!(d.x >= 0 && d.y >= 0 && d.z >= 0);
    }
    for (a, b) in IDirection::edge_inds_x() {
        assert_eq!(pos[b].minus(pos[a]), ivec3(1, 0, 0));
    }
    for (a, b) in IDirection::edge_inds_y() {
        assert_eq!(pos[b].minus(pos[a]), ivec3(0, 1, 0));
    }
    for (a, b) in IDirection::edge_inds_z() {
        assert_eq!(pos[b].minus(pos[a]), ivec3(0, 0, 1));
    }
}

#[test]
fn compress_clamps_to_a_byte() {
    assert_eq!(DistanceField::compress(0), 128);
    assert_eq!(DistanceField::compress(64), 192);
    assert_eq!(DistanceField::compress(-64), 64);
    assert_eq!(DistanceField::compress(127), 255);
    assert_eq!(DistanceField::compress(128), 255);
    assert_eq!(DistanceField::compress(-128), 0);
    assert_eq!(DistanceField::compress(-129), 0);
    assert_eq!(DistanceField::compress(i32::MAX), 255);
    assert_eq!(DistanceField::compress(i32::MIN), 0);
    assert_eq!(DistanceField::compress_range(vec![0, 1000, -1000, -1]), vec![128, 255, 0, 127]);
}

#[test]
fn sea_hash_map_stores_by_key() {
    let a = coord2key(ivec3(1, 2, 3));
    let b = coord2key(ivec3(3, 2, 1));
    let mut map: SeaHashMap<[u8; 12], u32> = SeaHashMap::new();
    assert!(!map.contains_key(&a));
    assert_eq!(map.get(&a), None);
    assert_eq!(map.insert(a, 7), None);
    assert_eq!(map.insert(b, 9), None);
    assert_eq!(map.insert(a, 8), Some(7));
    assert!(map.contains_key(&a));
    assert_eq!(map.get(&a), Some(&8));
    assert_eq!(*map.index(&b), 9);
    assert_eq!(map.get(&coord2key(ivec3(0, 0, 0))), None);
    let mut keys = map.keys();
    keys.sort();
    let mut both = vec![a, b];
    both.sort();
    assert_eq!(keys, both);
    assert_eq!(map.remove(&a), Some(8));
    assert_eq!(map.remove(&a), None);
    assert!(!map.contains_key(&a));
    assert_eq!(map.get(&b), Some(&9));
    assert_eq!(map.keys(), vec![b]);
    assert_eq!(map.remove(&b), Some(9));
    assert!(map.keys().is_empty());
}

#[test]
fn sea_hash_set_holds_keys_once() {
    let a = coord2key(ivec3(1, 2, 3));
    let b = coord2key(ivec3(3, 2, 1));
    let mut set: SeaHashSet<[u8; 12]> = SeaHashSet::new();
    assert!(!set.contains(&a));
    assert!(set.insert(a));
    assert!(!set.insert(a));
    assert!(set.insert(b));
    assert!(set.contains(&a));
    assert!(set.remove(&a));
    assert!(!set.remove(&a));
    assert!(!set.contains(&a));
    assert!(set.contains(&b));
    set.clear();
    assert!(!set.contains(&b));
    assert!(keys_equal(&a, &a));
    assert!(!keys_equal(&a, &b));
}

#[test]
fn octree_finds_the_nearest_ancestor() {
    let mut tree: Octree<u8> = Octree::new(3);
    assert!(tree.is_empty());
    tree.insert(1, OctreeNode { mask: 0b1000_0010, value: 10 });
    tree.insert_value(0b1_001, 20);
    tree.insert(0b1_111, OctreeNode { mask: 1, value: 30 });
    tree.insert_value(0b1_111_000, 40);
    assert!(!tree.is_empty());
    assert!(tree.contains_key(&0b1_111));
    assert!(!tree.contains_key(&0b1_110));
    assert_eq!(tree.get(&0b1_001).map(|n| n.value), Some(20));
    assert!(tree.get(&0b1_010).is_none());
    assert!(tree.get_node_option(0b1_010).is_none());
    assert_eq!(tree.get_node(&1).value, 10);
    assert_eq!(tree.get_parent(0b1_111_000).value, 30);
    assert_eq!(tree.get_node_or_parent(0b1_111_000_101).value, 40);
    assert_eq!(tree.get_node_or_parent(0b1_111_001_101).value, 30);
    assert_eq!(tree.get_node_or_parent(0b1_001_001_101).value, 20);
    assert_eq!(tree.get_node_or_parent(0b1_010_001_101).value, 10);
    assert_eq!(tree.get_node_or_parent(1).value, 10);
    let family: Vec<u8> = tree.get_children(1).iter().map(|n| n.value).collect();
    assert_eq!(family, vec![10, 20, 30]);
    let family: Vec<u8> = tree.get_children(0b1_111).iter().map(|n| n.value).collect();
    assert_eq!(family, vec![30, 40]);
    let family: Vec<u8> = tree.get_children(0b1_001).iter().map(|n| n.value).collect();
    assert_eq!(family, vec![20]);
}

#[test]
fn surface_point_counts_and_cuts_edges() {
    // one corner inside, seven outside: the three edges at the origin are cut
    let sp = SurfacePoint { corners: [-64, 64, 64, 32, 64, 64, 64, 64] };
    assert_eq!(sp.crossings(), 3);
    assert_eq!(sp.edge_crossing(0), Some((-64, -128)));
    assert_eq!(sp.edge_crossing(1), Some((-64, -128)));
    assert_eq!(sp.edge_crossing(2), Some((-64, -96)));
    assert_eq!(sp.edge_crossing(3), None);
    assert_eq!(sp.edge_crossing(11), None);
    assert_eq!(sp.gradient(), ivec3(160, 160, 96));
    // a sample of zero counts as inside
    let flat = SurfacePoint { corners: [0, 1, 0, 0, 1, 1, 0, 1] };
    assert_eq!(flat.crossings(), 4);
    assert_eq!(flat.edge_crossing(0), Some((0, -1)));
    assert_eq!(flat.gradient(), ivec3(4, 0, 0));
    let none = SurfacePoint { corners: [5, 5, 5, 5, 5, 5, 5, 5] };
    assert_eq!(none.crossings(), 0);
}
