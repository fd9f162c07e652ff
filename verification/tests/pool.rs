use sdf_terrain::hasher::SeaHashSet;
use sdf_terrain::math::coord2key;
use sdf_terrain::math::ivec3;
use sdf_terrain::render::buffers::BufferWrite;
use sdf_terrain::render::buffers::IndexedBufferManager;
use sdf_terrain::render::mesh::IndexedMesh;
use sdf_terrain::render::pool::BucketCoord;
use sdf_terrain::render::pool::BucketPool;

fn key(n: i32) -> [u8; 12] {
    coord2key(ivec3(n, 0, 0))
}

fn slot(buffer: u16, offset: u16) -> BucketCoord {
    BucketCoord { buffer, offset }
}

fn set_of(keys: &[[u8; 12]]) -> SeaHashSet<[u8; 12]> {
    let mut set = SeaHashSet::new();
    for k in keys {
        set.insert(*k);
    }
    set
}

#[test]
fn pool_hands_out_the_lowest_slot_first() {
    let none = set_of(&[]);
    let mut pool = BucketPool::new(2, 3);
    assert_eq!(pool.len(), 0);
    assert_eq!(pool.cur_dim, 1);
    assert!(pool.is_expandable());
    assert_eq!(pool.reserve(&key(0), &none), Some(slot(0, 0)));
    assert_eq!(pool.reserve(&key(1), &none), Some(slot(0, 1)));
    assert_eq!(pool.reserve(&key(2), &none), Some(slot(0, 2)));
    assert_eq!(pool.cur_dim, 1);
    assert_eq!(pool.reserve(&key(3), &none), Some(slot(1, 0)));
    assert_eq!(pool.cur_dim, 2);
    assert!(!pool.is_expandable());
    assert_eq!(pool.reserve(&key(4), &none), Some(slot(1, 1)));
    assert_eq!(pool.reserve(&key(5), &none), Some(slot(1, 2)));
    assert_eq!(pool.reserve(&key(6), &none), None);
    assert_eq!(pool.len(), 6);
    assert!(!pool.expand());
}

#[test]
fn reserved_key_gets_its_slot_only_when_forced() {
    let none = set_of(&[]);
    let mut pool = BucketPool::new(1, 4);
    assert_eq!(pool.reserve(&key(7), &none), Some(slot(0, 0)));
    assert_eq!(pool.reserve(&key(8), &none), Some(slot(0, 1)));
    assert_eq!(pool.reserve(&key(7), &none), None);
    assert_eq!(pool.reserve(&key(7), &set_of(&[key(7)])), Some(slot(0, 0)));
    assert_eq!(pool.reserve(&key(8), &set_of(&[key(7)])), None);
    assert_eq!(pool.reserve(&key(8), &set_of(&[key(7), key(8)])), Some(slot(0, 1)));
    assert_eq!(pool.len(), 2);
    // a forced key without a slot gets a fresh one like any other
    assert_eq!(pool.reserve(&key(9), &set_of(&[key(9)])), Some(slot(0, 2)));
}

#[test]
fn pool_of_one_slot_serves_one_key_at_a_time() {
    let none = set_of(&[]);
    let mut pool = BucketPool::new(1, 1);
    assert_eq!(pool.reserve(&key(1), &none), Some(slot(0, 0)));
    assert_eq!(pool.reserve(&key(2), &none), None);
    assert_eq!(pool.reserve(&key(2), &set_of(&[key(2)])), None);
    assert_eq!(pool.len(), 1);
    let mesh = IndexedMesh::new();
    let keep = vec![(key(2), &mesh)];
    assert_eq!(pool.keep_reserved(&keep), vec![slot(0, 0)]);
    assert_eq!(pool.reserve(&key(2), &none), Some(slot(0, 0)));
    assert_eq!(pool.reserve(&key(1), &none), None);
}

#[test]
fn pool_without_slots_serves_nobody() {
    let none = set_of(&[]);
    let mut pool = BucketPool::new(0, 4);
    assert_eq!(pool.reserve(&key(1), &none), None);
    let mut pool = BucketPool::new(3, 0);
    assert_eq!(pool.reserve(&key(1), &none), None);
    assert_eq!(pool.len(), 0);
}

#[test]
fn keep_reserved_frees_the_slots_of_the_others() {
    let none = set_of(&[]);
    let mesh = IndexedMesh::new();
    let mut pool = BucketPool::new(2, 2);
    for n in 0..4 {
        assert!(pool.reserve(&key(n), &none).is_some());
    }
    let keep = vec![(key(1), &mesh), (key(3), &mesh), (key(9), &mesh)];
    assert_eq!(pool.keep_reserved(&keep), vec![slot(0, 0), slot(1, 0)]);
    assert_eq!(pool.len(), 2);
    assert_eq!(pool.reserve(&key(1), &set_of(&[key(1)])), Some(slot(0, 1)));
    assert_eq!(pool.reserve(&key(3), &set_of(&[key(3)])), Some(slot(1, 1)));
    // freed slots are handed out again, lowest first
    assert_eq!(pool.reserve(&key(5), &none), Some(slot(0, 0)));
    assert_eq!(pool.reserve(&key(6), &none), Some(slot(1, 0)));
    assert_eq!(pool.reserve(&key(7), &none), None);
    assert_eq!(pool.keep_reserved(&Vec::new()), vec![slot(0, 1), slot(1, 1), slot(0, 0), slot(1, 0)]);
    assert_eq!(pool.len(), 0);
    assert_eq!(pool.reserve(&key(8), &none), Some(slot(0, 0)));
}

#[test]
fn no_two_keys_share_a_slot() {
    let none = set_of(&[]);
    let mesh = IndexedMesh::new();
    let mut pool = BucketPool::new(3, 5);
    let mut held: Vec<(i32, BucketCoord)> = Vec::new();
    for round in 0..6 {
        for n in 0..10 {
            let k = round * 7 + n;
            if let Some(s) = pool.reserve(&key(k), &none) {
                assert!(s.buffer < 3 && s.offset < 5);
                for (other, t) in &held {
                    assert!(*other == k || *t != s);
                }
                held.push((k, s));
            }
        }
        let keep: Vec<([u8; 12], &IndexedMesh)> =
            held.iter().filter(|(k, _)| k % 3 == 0).map(|(k, _)| (key(*k), &mesh)).collect();
        let freed = pool.keep_reserved(&keep);
        held.retain(|(k, s)| {
            let stays = k % 3 == 0;
            assert_eq!(stays, !freed.contains(s));
            stays
        });
        assert_eq!(pool.len(), held.len());
    }
}

#[test]
fn bucket_churn_fits_exactly() {
    let mesh = IndexedMesh::new();
    let mut manager = IndexedBufferManager::new(2, 4 * 24576);
    assert_eq!(manager.num_buckets, 4);
    assert_eq!(manager.index_buffer_size, 4 * 12288);
    let old: Vec<([u8; 12], &IndexedMesh)> = (0..8).map(|n| (key(n), &mesh)).collect();
    let writes = manager.update(&old, &set_of(&[]));
    assert_eq!(writes.len(), 8);
    for (i, w) in writes.iter().enumerate() {
        let offset = (i % 4) as u64;
        assert_eq!(
            *w,
            BufferWrite::Mesh {
                buffer: (i / 4) as u16,
                vertex_offset: offset * 24576,
                index_offset: offset * 12288,
                first_vertex: (i % 4) as u32 * 512,
                visible: i,
            }
        );
    }
    assert_eq!(manager.buckets.len(), 8);
    // nothing new, nothing updated: nothing is written
    assert_eq!(manager.update(&old, &set_of(&[])), Vec::new());
    // an updated mesh is written again to the slot it holds
    assert_eq!(
        manager.update(&old, &set_of(&[key(5)])),
        vec![BufferWrite::Mesh {
            buffer: 1,
            vertex_offset: 24576,
            index_offset: 12288,
            first_vertex: 512,
            visible: 5,
        }]
    );
    // eight new keys while as many keys hold a slot as meshes are visible:
    // nothing is freed, and nothing fits
    let new: Vec<([u8; 12], &IndexedMesh)> = (100..108).map(|n| (key(n), &mesh)).collect();
    let updated: Vec<[u8; 12]> = (100..108).map(key).collect();
    assert_eq!(manager.update(&new, &set_of(&updated)), Vec::new());
    assert_eq!(manager.buckets.len(), 8);
}

#[test]
fn bucket_churn_frees_all_and_fits_exactly() {
    let mesh = IndexedMesh::new();
    let none = set_of(&[]);
    let mut pool = BucketPool::new(2, 4);
    for n in 0..8 {
        assert_eq!(pool.reserve(&key(n), &none), Some(slot((n / 4) as u16, (n % 4) as u16)));
    }
    assert_eq!(pool.reserve(&key(8), &none), None);
    let new: Vec<([u8; 12], &IndexedMesh)> = (100..108).map(|n| (key(n), &mesh)).collect();
    let updated: Vec<[u8; 12]> = (100..108).map(key).collect();
    let updated = set_of(&updated);
    for (k, _) in &new {
        assert_eq!(pool.reserve(k, &updated), None);
    }
    let freed = pool.keep_reserved(&new);
    assert_eq!(freed.len(), 8);
    for n in 0..8 {
        assert_eq!(freed[n], slot((n / 4) as u16, (n % 4) as u16));
    }
    assert_eq!(pool.len(), 0);
    for (n, (k, _)) in new.iter().enumerate() {
        assert_eq!(pool.reserve(k, &updated), Some(slot((n / 4) as u16, (n % 4) as u16)));
    }
    assert_eq!(pool.len(), 8);
    assert_eq!(pool.reserve(&key(200), &none), None);
}

#[test]
fn fewer_visible_meshes_free_the_rest() {
    let mesh = IndexedMesh::new();
    let mut manager = IndexedBufferManager::new(1, 8 * 24576 + 100);
    assert_eq!(manager.num_buckets, 8);
    let all: Vec<([u8; 12], &IndexedMesh)> = (0..5).map(|n| (key(n), &mesh)).collect();
    assert_eq!(manager.update(&all, &set_of(&[])).len(), 5);
    let some = vec![(key(4), &mesh), (key(1), &mesh)];
    let writes = manager.update(&some, &set_of(&[key(1)]));
    assert_eq!(
        writes,
        vec![
            BufferWrite::Mesh {
                buffer: 0,
                vertex_offset: 24576,
                index_offset: 12288,
                first_vertex: 512,
                visible: 1,
            },
            BufferWrite::Clear { buffer: 0, index_offset: 0 },
            BufferWrite::Clear { buffer: 0, index_offset: 2 * 12288 },
            BufferWrite::Clear { buffer: 0, index_offset: 3 * 12288 },
        ]
    );
    assert_eq!(manager.buckets.len(), 2);
}

#[test]
fn slots_are_ordered_by_buffer_then_by_offset() {
    assert!(slot(0, 5) < slot(1, 0));
    assert!(slot(1, 2) < slot(1, 3));
    assert!(slot(2, 0) > slot(1, 9));
    assert_eq!(slot(1, 2).max(slot(0, 7)), slot(1, 2));
    let mut slots = vec![slot(1, 1), slot(0, 3), slot(1, 0), slot(0, 0)];
    slots.sort();
    assert_eq!(slots, vec![slot(0, 0), slot(0, 3), slot(1, 0), slot(1, 1)]);
}
