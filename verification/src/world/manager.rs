//! The manager of all chunks: three tables, three queues of work, and the
//! policy that decides what is built each frame.
use crate::hasher::SeaHashKey;
use crate::hasher::SeaHashMap;
use crate::hasher::SeaHashSet;
use crate::math::coord2key;
use crate::math::fits_i32;
use crate::math::lemma_coord2key;
use crate::math::spec_coord2key;
use crate::math::IVec3;
use crate::direction::IDirection;
use crate::octree::SurfaceOctree;
use crate::render::mesh::IndexedMesh;
use crate::world::chunk::chunk_addressable;
use crate::world::chunk::WorldChunk;
use crate::world::chunk::MAX_DEGREE;
use crate::world::morton::lemma_shl_pow2;
use crate::world::morton::spec_chunk_size;
use vstd::arithmetic::power2::lemma_pow2_pos;
use vstd::arithmetic::power2::lemma_pow2_strictly_increases;
use vstd::prelude::*;

verus! {

/// The key of the chunk at `coord`: the key of its origin on the lattice of voxels.
pub open spec fn spec_chunk_key(size: i32, coord: IVec3) -> SeaHashKey {
    spec_coord2key(coord.spec_scaled(size))
}

/// The origin of the chunk at `coord` fits 32 bits.
#[verifier::opaque]
pub open spec fn chunk_keyable(size: i32, coord: IVec3) -> bool {
    coord.can_scale(size)
}

/// Distinct chunks have distinct keys.
pub proof fn lemma_chunk_key_injective(size: i32, a: IVec3, b: IVec3)
    requires
        size > 0,
        chunk_keyable(size, a),
        chunk_keyable(size, b),
        spec_chunk_key(size, a) == spec_chunk_key(size, b),
    ensures
        a == b,
{
    reveal(chunk_keyable);
    lemma_coord2key(a.spec_scaled(size), b.spec_scaled(size));
    assert(a.x * size == b.x * size ==> a.x == b.x) by (nonlinear_arith)
        requires
            size > 0,
    ;
    assert(a.y * size == b.y * size ==> a.y == b.y) by (nonlinear_arith)
        requires
            size > 0,
    ;
    assert(a.z * size == b.z * size ==> a.z == b.z) by (nonlinear_arith)
        requires
            size > 0,
    ;
}

/// A chunk that is addressable, and each chunk next to it, has a key.
pub proof fn lemma_addressable_keyable(degree: u8, coord: IVec3, step: IVec3)
    requires
        degree <= MAX_DEGREE,
        chunk_addressable(coord, degree),
        -1 <= step.x <= 1,
        -1 <= step.y <= 1,
        -1 <= step.z <= 1,
    ensures
        1 <= spec_chunk_size(degree) <= 1024,
        coord.can_plus(step),
        chunk_keyable(spec_chunk_size(degree) as i32, coord.spec_plus(step)),
{
    reveal(chunk_keyable);
    reveal(chunk_addressable);
    let size = spec_chunk_size(degree);
    vstd::arithmetic::power2::lemma2_to64();
    lemma_pow2_pos(degree as nat);
    if degree < 10 {
        lemma_pow2_strictly_increases(degree as nat, 10);
    }
    lemma_axis_keyable(coord.x as int, step.x as int, size);
    lemma_axis_keyable(coord.y as int, step.y as int, size);
    lemma_axis_keyable(coord.z as int, step.z as int, size);
}

proof fn lemma_axis_keyable(c: int, step: int, size: int)
    by (nonlinear_arith)
    requires
        1 <= size <= 1024,
        fits_i32((c - 2) * size),
        fits_i32((c + 2) * size),
        -1 <= step <= 1,
    ensures
        fits_i32(c + step),
        fits_i32((c + step) * size),
{
}

/// The chunks of the world with their surface points and meshes, and the
/// work that is still to be done on them.
pub struct ChunkManager {
    pub chunk_size: i32,
    pub chunk_degree: u8,
    pub chunks: SeaHashMap<SeaHashKey, WorldChunk>,
    pub surface_maps: SeaHashMap<SeaHashKey, SurfaceOctree>,
    pub meshes: SeaHashMap<SeaHashKey, IndexedMesh>,
    pub view_dist: i32,
    pub gen_dist: i32,
    pub operations_per_frame: i32,
    pub queue_chunk: Vec<IVec3>,
    pub queue_sfp: Vec<IVec3>,
    pub queue_mesh: Vec<IVec3>,
    pub operation_pending: SeaHashSet<SeaHashKey>,
    pub chunk_updated: SeaHashSet<SeaHashKey>,
}

impl ChunkManager {
    /// The chunk at `coord` waits in one of the three queues.
    pub open spec fn waits(&self, coord: IVec3) -> bool {
        self.queue_chunk@.contains(coord) || self.queue_sfp@.contains(coord)
            || self.queue_mesh@.contains(coord)
    }

    /// The key of the chunk at `coord`.
    pub open spec fn key_of(&self, coord: IVec3) -> SeaHashKey {
        spec_chunk_key(self.chunk_size, coord)
    }

    /// The keys of the chunks in a queue.
    pub open spec fn queue_keys(&self, queue: Seq<IVec3>) -> Set<SeaHashKey> {
        Set::new(|k: SeaHashKey| exists|c: IVec3| #[trigger] queue.contains(c) && self.key_of(c) == k)
    }

    /// The size of a chunk is that of its degree, and the distances are in
    /// order. The degree is at most `MAX_DEGREE`, the deepest chunk whose
    /// voxels can be counted in a `usize` of 32 bits.
    pub open spec fn config_ok(&self) -> bool {
        &&& self.chunk_degree <= MAX_DEGREE
        &&& self.chunk_size == spec_chunk_size(self.chunk_degree)
        &&& self.view_dist <= self.gen_dist < i32::MAX
    }

    /// Every stored chunk is in order, has the manager's degree, is stored
    /// under its own key, and is addressable together with the chunks around it.
    pub open spec fn chunks_ok(&self) -> bool {
        forall|k: SeaHashKey| #[trigger]
            self.chunks@.contains_key(k) ==> self.chunks@[k].wf() && self.chunks@[k].degree
                == self.chunk_degree && self.key_of(self.chunks@[k].coord) == k
                && chunk_addressable(self.chunks@[k].coord, self.chunk_degree)
    }

    /// A surface needs its chunk, and a mesh needs its surface; a mesh that
    /// is stored is in order and holds a triangle.
    pub open spec fn cascade_ok(&self) -> bool {
        &&& forall|k: SeaHashKey| #[trigger]
            self.surface_maps@.contains_key(k) ==> self.chunks@.contains_key(k)
        &&& forall|k: SeaHashKey| #[trigger]
            self.meshes@.contains_key(k) ==> self.surface_maps@.contains_key(k)
                && self.meshes@[k].wf() && self.meshes@[k]@.inds.len() > 0
    }

    /// A chunk waits in at most one queue and at most once; exactly the
    /// waiting chunks are pending; and what waits for a stage has passed the
    /// stages before it.
    pub open spec fn queues_ok(&self) -> bool {
        &&& self.queue_chunk@.no_duplicates()
        &&& self.queue_sfp@.no_duplicates()
        &&& self.queue_mesh@.no_duplicates()
        &&& forall|c: IVec3| !(self.queue_chunk@.contains(c) && self.queue_sfp@.contains(c))
        &&& forall|c: IVec3| !(self.queue_chunk@.contains(c) && self.queue_mesh@.contains(c))
        &&& forall|c: IVec3| !(self.queue_sfp@.contains(c) && self.queue_mesh@.contains(c))
        &&& forall|c: IVec3| #[trigger] self.waits(c) ==> chunk_addressable(c, self.chunk_degree)
        &&& forall|k: SeaHashKey|
            self.operation_pending@.contains(k) <==> exists|c: IVec3| #[trigger]
                self.waits(c) && self.key_of(c) == k
        &&& forall|c: IVec3|
            self.queue_chunk@.contains(c) ==> !self.chunks@.contains_key(#[trigger] self.key_of(c))
        &&& forall|c: IVec3|
            self.queue_sfp@.contains(c) ==> self.chunks@.contains_key(#[trigger] self.key_of(c))
        &&& forall|c: IVec3|
            self.queue_mesh@.contains(c) ==> self.surface_maps@.contains_key(
                #[trigger] self.key_of(c),
            )
    }

    /// A stored chunk is on its way through the stages or has its surface:
    /// its mesh, where it has triangles, was built at least once.
    pub open spec fn settled_ok(&self) -> bool {
        forall|k: SeaHashKey| #[trigger]
            self.chunks@.contains_key(k) ==> self.operation_pending@.contains(k)
                || self.surface_maps@.contains_key(k)
    }

    /// What holds of the three tables whatever the queues hold.
    pub open spec fn tables_ok(&self) -> bool {
        &&& self.config_ok()
        &&& self.chunks_ok()
        &&& self.cascade_ok()
    }

    /// The invariant of the manager.
    pub open spec fn wf(&self) -> bool {
        &&& self.config_ok()
        &&& self.chunks_ok()
        &&& self.cascade_ok()
        &&& self.queues_ok()
        &&& self.settled_ok()
    }

    /// A manager without chunks: chunks of degree 3, a view and generation
    /// distance of 10 chunks, and 20 operations per frame.
    pub fn new() -> (manager: Self)
        ensures
            manager.wf(),
            manager.chunk_degree == 3,
            manager.chunk_size == 8,
            manager.view_dist == 10,
            manager.gen_dist == 10,
            manager.operations_per_frame == 20,
            manager.chunks@ == Map::<SeaHashKey, WorldChunk>::empty(),
            manager.surface_maps@ == Map::<SeaHashKey, SurfaceOctree>::empty(),
            manager.meshes@ == Map::<SeaHashKey, IndexedMesh>::empty(),
            manager.queue_chunk@ == Seq::<IVec3>::empty(),
            manager.queue_sfp@ == Seq::<IVec3>::empty(),
            manager.queue_mesh@ == Seq::<IVec3>::empty(),
            manager.operation_pending@ == Set::<SeaHashKey>::empty(),
            manager.chunk_updated@ == Set::<SeaHashKey>::empty(),
    {
        let chunk_degree: u8 = 3;
        proof {
            lemma_shl_pow2(3);
            vstd::arithmetic::power2::lemma2_to64();
        }
        let manager = ChunkManager {
            chunk_size: (1u64 << chunk_degree) as i32,
            chunk_degree,
            chunks: SeaHashMap::new(),
            surface_maps: SeaHashMap::new(),
            meshes: SeaHashMap::new(),
            view_dist: 10,
            gen_dist: 10,
            operations_per_frame: 20,
            queue_chunk: Vec::with_capacity(100),
            queue_sfp: Vec::with_capacity(100),
            queue_mesh: Vec::with_capacity(100),
            operation_pending: SeaHashSet::new(),
            chunk_updated: SeaHashSet::new(),
        };
        manager
    }

    /// The key of the chunk at `coord`.
    pub fn chunk_coord2key(&self, coord: IVec3) -> (key: SeaHashKey)
        requires
            chunk_keyable(self.chunk_size, coord),
        ensures
            key == self.key_of(coord),
    {
        reveal(chunk_keyable);
        let coord = coord.scaled(self.chunk_size);
        coord2key(coord)
    }

    /// The chunks next to `chunk_coord` in the given directions, where they are stored.
    pub open spec fn spec_neighbor_chunks(&self, chunk_coord: IVec3, dirs: Seq<IVec3>) -> Seq<Option<&WorldChunk>> {
        Seq::new(
            dirs.len(),
            |i: int|
                if self.chunks@.contains_key(self.key_of(chunk_coord.spec_plus(dirs[i]))) {
                    Some(&self.chunks@[self.key_of(chunk_coord.spec_plus(dirs[i]))])
                } else {
                    None
                },
        )
    }

    /// The neighbours of a chunk rest on the stored chunks alone.
    pub proof fn lemma_neighbor_chunks_frame(
        &self,
        other: &ChunkManager,
        chunk_coord: IVec3,
        dirs: Seq<IVec3>,
    )
        requires
            self.chunk_size == other.chunk_size,
            self.chunks@ == other.chunks@,
        ensures
            self.spec_neighbor_chunks(chunk_coord, dirs) == other.spec_neighbor_chunks(
                chunk_coord,
                dirs,
            ),
    {
        assert(self.spec_neighbor_chunks(chunk_coord, dirs) =~= other.spec_neighbor_chunks(
            chunk_coord,
            dirs,
        ));
    }

    /// The chunks next to `chunk_coord` in the given directions, where they are stored.
    pub fn get_neighbor_chunks(&self, chunk_coord: IVec3, dirs: &[IVec3]) -> (ret: Vec<Option<&WorldChunk>>)
        requires
            forall|i: int|
                0 <= i < dirs@.len() ==> chunk_coord.can_plus(#[trigger] dirs@[i]) && chunk_keyable(
                    self.chunk_size,
                    chunk_coord.spec_plus(dirs@[i]),
                ),
        ensures
            ret@ == self.spec_neighbor_chunks(chunk_coord, dirs@),
    {
        let mut ret: Vec<Option<&WorldChunk>> = Vec::with_capacity(dirs.len());
        let mut i: usize = 0;
        while i < dirs.len()
            invariant
                i <= dirs@.len(),
                forall|i: int|
                    0 <= i < dirs@.len() ==> chunk_coord.can_plus(#[trigger] dirs@[i])
                        && chunk_keyable(self.chunk_size, chunk_coord.spec_plus(dirs@[i])),
                ret@.len() == i,
                forall|k: int|
                    0 <= k < i ==> #[trigger] ret@[k] == self.spec_neighbor_chunks(
                        chunk_coord,
                        dirs@,
                    )[k],
            decreases dirs@.len() - i,
        {
            let chunk_key = self.chunk_coord2key(chunk_coord.plus(dirs[i]));
            ret.push(self.chunks.get(&chunk_key));
            i += 1;
        }
        assert(ret@ =~= self.spec_neighbor_chunks(chunk_coord, dirs@));
        ret
    }

    /// Everything but the table of chunks is as in `old`.
    pub open spec fn same_but_chunks(&self, old: &ChunkManager) -> bool {
        &&& self.chunk_size == old.chunk_size
        &&& self.chunk_degree == old.chunk_degree
        &&& self.surface_maps == old.surface_maps
        &&& self.meshes == old.meshes
        &&& self.view_dist == old.view_dist
        &&& self.gen_dist == old.gen_dist
        &&& self.operations_per_frame == old.operations_per_frame
        &&& self.queue_chunk == old.queue_chunk
        &&& self.queue_sfp == old.queue_sfp
        &&& self.queue_mesh == old.queue_mesh
        &&& self.operation_pending == old.operation_pending
        &&& self.chunk_updated == old.chunk_updated
    }

    /// Everything but the table of surfaces is as in `old`.
    pub open spec fn same_but_surfaces(&self, old: &ChunkManager) -> bool {
        &&& self.chunk_size == old.chunk_size
        &&& self.chunk_degree == old.chunk_degree
        &&& self.chunks == old.chunks
        &&& self.meshes == old.meshes
        &&& self.view_dist == old.view_dist
        &&& self.gen_dist == old.gen_dist
        &&& self.operations_per_frame == old.operations_per_frame
        &&& self.queue_chunk == old.queue_chunk
        &&& self.queue_sfp == old.queue_sfp
        &&& self.queue_mesh == old.queue_mesh
        &&& self.operation_pending == old.operation_pending
        &&& self.chunk_updated == old.chunk_updated
    }

    /// Everything but the table of meshes is as in `old`.
    pub open spec fn same_but_meshes(&self, old: &ChunkManager) -> bool {
        &&& self.chunk_size == old.chunk_size
        &&& self.chunk_degree == old.chunk_degree
        &&& self.chunks == old.chunks
        &&& self.surface_maps == old.surface_maps
        &&& self.view_dist == old.view_dist
        &&& self.gen_dist == old.gen_dist
        &&& self.operations_per_frame == old.operations_per_frame
        &&& self.queue_chunk == old.queue_chunk
        &&& self.queue_sfp == old.queue_sfp
        &&& self.queue_mesh == old.queue_mesh
        &&& self.operation_pending == old.operation_pending
        &&& self.chunk_updated == old.chunk_updated
    }

    /// With the queues and the pending set as in `old`, what held of them there holds here.
    pub proof fn lemma_same_queues(&self, old: &ChunkManager)
        requires
            old.queues_ok(),
            self.chunk_size == old.chunk_size,
            self.chunk_degree == old.chunk_degree,
            self.queue_chunk@ == old.queue_chunk@,
            self.queue_sfp@ == old.queue_sfp@,
            self.queue_mesh@ == old.queue_mesh@,
            self.operation_pending@ == old.operation_pending@,
            forall|k: SeaHashKey| self.chunks@.contains_key(k) == old.chunks@.contains_key(k),
            forall|k: SeaHashKey|
                old.surface_maps@.contains_key(k) ==> self.surface_maps@.contains_key(k),
        ensures
            self.queues_ok(),
    {
        assert forall|c: IVec3| #[trigger] self.waits(c) implies chunk_addressable(
            c,
            self.chunk_degree,
        ) by {
            assert(old.waits(c));
        }
        assert forall|k: SeaHashKey|
            self.operation_pending@.contains(k) <==> exists|c: IVec3| #[trigger]
                self.waits(c) && self.key_of(c) == k by {
            if self.operation_pending@.contains(k) {
                let c = choose|c: IVec3| #[trigger] old.waits(c) && old.key_of(c) == k;
                assert(self.waits(c));
            }
            if exists|c: IVec3| #[trigger] self.waits(c) && self.key_of(c) == k {
                let c = choose|c: IVec3| #[trigger] self.waits(c) && self.key_of(c) == k;
                assert(old.waits(c));
            }
        }
        assert forall|c: IVec3| self.queue_chunk@.contains(c) implies !self.chunks@.contains_key(
            #[trigger] self.key_of(c),
        ) by {
            assert(old.key_of(c) == self.key_of(c));
        }
        assert forall|c: IVec3| self.queue_sfp@.contains(c) implies self.chunks@.contains_key(
            #[trigger] self.key_of(c),
        ) by {
            assert(old.key_of(c) == self.key_of(c));
        }
        assert forall|c: IVec3| self.queue_mesh@.contains(c) implies self.surface_maps@.contains_key(
            #[trigger] self.key_of(c),
        ) by {
            assert(old.key_of(c) == self.key_of(c));
        }
    }

    /// A chunk that waits in a queue has a key, and so have the chunks next to it.
    pub proof fn lemma_keyable(&self, coord: IVec3, step: IVec3)
        requires
            self.config_ok(),
            chunk_addressable(coord, self.chunk_degree),
            -1 <= step.x <= 1,
            -1 <= step.y <= 1,
            -1 <= step.z <= 1,
        ensures
            1 <= self.chunk_size <= 1024,
            coord.can_plus(step),
            chunk_keyable(self.chunk_size, coord.spec_plus(step)),
            chunk_keyable(self.chunk_size, coord),
    {
        lemma_addressable_keyable(self.chunk_degree, coord, step);
        lemma_addressable_keyable(self.chunk_degree, coord, IVec3 { x: 0, y: 0, z: 0 });
    }

    /// Samples the chunk at `chunk_coord` and stores it.
    pub fn create_chunk<F: Fn(IVec3) -> u8>(&mut self, chunk_coord: IVec3, df: &F)
        requires
            old(self).tables_ok(),
            chunk_addressable(chunk_coord, old(self).chunk_degree),
            forall|p: IVec3| call_requires(df, (p,)),
        ensures
            final(self).tables_ok(),
            old(self).queues_ok() && !old(self).queue_chunk@.contains(chunk_coord) ==> final(self).queues_ok(),
            final(self).same_but_chunks(old(self)),
            final(self).chunks@.contains_key(old(self).key_of(chunk_coord)),
            final(self).chunks@ == old(self).chunks@.insert(
                old(self).key_of(chunk_coord),
                final(self).chunks@[old(self).key_of(chunk_coord)],
            ),
            final(self).chunks@[old(self).key_of(chunk_coord)].coord == chunk_coord,
            forall|c: IVec3|
                c.within(0, spec_chunk_size(old(self).chunk_degree)) ==> call_ensures(
                    df,
                    (final(self).chunks@[old(self).key_of(chunk_coord)].spec_coord2pos(c),),
                    #[trigger] final(self).chunks@[old(self).key_of(chunk_coord)].spec_sample(c),
                ),
    {
        proof {
            self.lemma_keyable(chunk_coord, IVec3 { x: 0, y: 0, z: 0 });
            crate::world::chunk::lemma_addressable_placeable(chunk_coord, self.chunk_degree);
        }
        let key = self.chunk_coord2key(chunk_coord);
        let chunk = WorldChunk::new(chunk_coord, self.chunk_degree, df);
        self.chunks.insert(key, chunk);
        proof {
            if old(self).queues_ok() && !old(self).queue_chunk@.contains(chunk_coord) {
                assert forall|c: IVec3| self.queue_chunk@.contains(c) implies !self.chunks@.contains_key(
                    #[trigger] self.key_of(c),
                ) by {
                    assert(old(self).waits(c));
                    assert(!old(self).chunks@.contains_key(old(self).key_of(c)));
                    if self.key_of(c) == key {
                        self.lemma_keyable(c, IVec3 { x: 0, y: 0, z: 0 });
                        lemma_chunk_key_injective(self.chunk_size, c, chunk_coord);
                    }
                }
                assert forall|c: IVec3| #[trigger] self.waits(c) implies chunk_addressable(
                    c,
                    self.chunk_degree,
                ) by {
                    assert(old(self).waits(c));
                }
                assert forall|k: SeaHashKey|
                    self.operation_pending@.contains(k) <==> exists|c: IVec3| #[trigger]
                        self.waits(c) && self.key_of(c) == k by {
                    if self.operation_pending@.contains(k) {
                        let c = choose|c: IVec3| #[trigger]
                            old(self).waits(c) && old(self).key_of(c) == k;
                        assert(self.waits(c));
                    }
                    if exists|c: IVec3| #[trigger] self.waits(c) && self.key_of(c) == k {
                        let c = choose|c: IVec3| #[trigger] self.waits(c) && self.key_of(c) == k;
                        assert(old(self).waits(c));
                    }
                }
                assert forall|c: IVec3| self.queue_sfp@.contains(c) implies self.chunks@.contains_key(
                    #[trigger] self.key_of(c),
                ) by {
                    assert(old(self).chunks@.contains_key(old(self).key_of(c)));
                }
                assert forall|c: IVec3|
                    self.queue_mesh@.contains(c) implies self.surface_maps@.contains_key(
                    #[trigger] self.key_of(c),
                ) by {
                    assert(old(self).surface_maps@.contains_key(old(self).key_of(c)));
                }
                assert(self.queues_ok());
            }
            assert(self.chunks_ok());
            assert(self.cascade_ok());
        }
    }

    /// Extracts the surface of the stored chunk at `chunk_coord` and stores it.
    pub fn create_surface_map(&mut self, chunk_coord: IVec3)
        requires
            old(self).tables_ok(),
            chunk_addressable(chunk_coord, old(self).chunk_degree),
            old(self).chunks@.contains_key(old(self).key_of(chunk_coord)),
        ensures
            final(self).tables_ok(),
            old(self).queues_ok() ==> final(self).queues_ok(),
            final(self).same_but_surfaces(old(self)),
            final(self).surface_maps@.contains_key(old(self).key_of(chunk_coord)),
            final(self).surface_maps@ == old(self).surface_maps@.insert(
                old(self).key_of(chunk_coord),
                final(self).surface_maps@[old(self).key_of(chunk_coord)],
            ),
            old(self).chunks@[old(self).key_of(chunk_coord)].is_surface_of(
                final(self).surface_maps@[old(self).key_of(chunk_coord)],
                old(self).spec_neighbor_chunks(chunk_coord, IDirection::spec_positive_dirs()),
            ),
    {
        proof {
            self.lemma_keyable(chunk_coord, IVec3 { x: 0, y: 0, z: 0 });
        }
        let chunk_key = self.chunk_coord2key(chunk_coord);
        let dirs = IDirection::positive_dirs();
        proof {
            assert forall|i: int| 0 <= i < dirs@.len() implies chunk_coord.can_plus(
                #[trigger] dirs@[i],
            ) && chunk_keyable(self.chunk_size, chunk_coord.spec_plus(dirs@[i])) by {
                self.lemma_keyable(chunk_coord, dirs@[i]);
            }
        }
        let neighbors = self.get_neighbor_chunks(chunk_coord, &dirs);
        let chunk = self.chunks.index(&chunk_key);
        let sptree = chunk.surface_tree(&neighbors);
        self.surface_maps.insert(chunk_key, sptree);
        proof {
            if old(self).queues_ok() {
                self.lemma_same_queues(old(self));
            }
        }
    }
}

} // verus!
