//! Fields that lie above the surface exactly over a height: a uniform field,
//! a plane. Chunks that such a height does not pass through stay without
//! surface points and without a mesh, frame after frame.
use crate::direction::IDirection;
use crate::hasher::SeaHashKey;
use crate::math::IVec3;
use crate::octree::SurfaceOctree;
use crate::render::mesh::IndexedMesh;
use crate::world::chunk::WorldChunk;
use crate::world::manager::lemma_chunk_key_injective;
use crate::world::manager::ChunkManager;
use crate::world::morton::spec_chunk_size;
use vstd::prelude::*;

verus! {

/// The oracle gives a sample above the surface exactly at the positions
/// whose height is more than `h`.
pub open spec fn level_field<F: Fn(IVec3) -> u8>(df: &F, h: int) -> bool {
    forall|p: IVec3, v: u8| #[trigger] call_ensures(df, (p,), v) ==> (v > 128) == (p.y > h)
}

/// The oracle gives every position a sample on the side `above` of the surface.
pub open spec fn one_sided_field<F: Fn(IVec3) -> u8>(df: &F, above: bool) -> bool {
    forall|p: IVec3, v: u8| #[trigger] call_ensures(df, (p,), v) ==> (v > 128) == above
}

/// A height that every position lies above, or one that none lies above.
pub open spec fn flat_level(above: bool) -> int {
    if above {
        i32::MIN - 1
    } else {
        i32::MAX + 1
    }
}

/// A field on one side of the surface is a level field whose height lies
/// beyond every position.
pub proof fn lemma_flat_is_level<F: Fn(IVec3) -> u8>(df: &F, above: bool)
    requires
        one_sided_field(df, above),
    ensures
        level_field(df, flat_level(above)),
{
}

impl WorldChunk {
    /// The height of the row `y` of voxels of the chunk.
    pub open spec fn spec_row(&self, y: int) -> int {
        y - self.midpoint.y + self.coord.y * spec_chunk_size(self.degree)
    }

    /// Every sample of the chunk is above the surface exactly where its
    /// position is higher than `h`.
    pub open spec fn follows_level(&self, h: int) -> bool {
        forall|c: IVec3|
            c.within(0, spec_chunk_size(self.degree)) ==> (#[trigger] self.spec_sample(c) > 128) == (
            self.spec_coord2pos(c).y > h)
    }

    /// The height `h` passes below the lowest row of the chunk, or not
    /// below the lowest row of the chunk above it.
    pub open spec fn clear_of(&self, h: int) -> bool {
        h < self.spec_row(0) || self.spec_row(spec_chunk_size(self.degree)) <= h
    }

    /// The position of a voxel has the height of its row.
    pub proof fn lemma_row(&self, c: IVec3)
        requires
            self.wf_frame(),
            c.within(0, spec_chunk_size(self.degree)),
        ensures
            self.spec_coord2pos(c).y == self.spec_row(c.y as int),
            self.spec_row(0) <= self.spec_row(c.y as int) < self.spec_row(
                spec_chunk_size(self.degree),
            ),
    {
        self.lemma_frame_bounds();
    }

    /// Every chunk is clear of a height that lies beyond every position.
    pub proof fn lemma_clear_of_flat(&self, above: bool)
        requires
            self.wf_frame(),
        ensures
            self.clear_of(flat_level(above)),
    {
        self.lemma_frame_bounds();
        let size = spec_chunk_size(self.degree);
        let base = self.coord.y * size;
        assert(self.spec_row(0) == base - self.midpoint.y);
        assert(self.spec_row(size) == base + size - 1 - self.midpoint.y + 1);
    }

    /// A chunk off the layer of chunks around the height zero is clear of it.
    pub proof fn lemma_clear_of_plane(&self)
        requires
            self.wf_frame(),
            self.coord.y != 0,
        ensures
            self.clear_of(0),
    {
        self.lemma_frame_bounds();
        let size = spec_chunk_size(self.degree);
        let cy = self.coord.y as int;
        if cy > 0 {
            assert(cy * size >= size) by (nonlinear_arith)
                requires
                    cy >= 1,
                    size >= 1,
            ;
        } else {
            assert(cy * size + size <= 0) by (nonlinear_arith)
                requires
                    cy <= -1,
                    size >= 1,
            ;
        }
    }

    /// A chunk clear of the height of a level field lies on one side of the surface.
    pub proof fn lemma_clear_one_sided(&self, h: int)
        requires
            self.wf_frame(),
            self.follows_level(h),
            self.clear_of(h),
        ensures
            self.one_sided(h < self.spec_row(0)),
    {
        let above = h < self.spec_row(0);
        assert forall|c: IVec3| c.within(0, spec_chunk_size(self.degree)) implies (
        #[trigger] self.spec_sample(c) > 128) == above by {
            self.lemma_row(c);
        }
    }

    /// The near face of a chunk next to one that is clear of the height of a
    /// level field lies on the same side of the surface as that one.
    pub proof fn lemma_clear_face(&self, next: &WorldChunk, dir: IVec3, h: int)
        requires
            self.wf_frame(),
            next.wf_frame(),
            next.degree == self.degree,
            0 <= dir.x <= 1,
            0 <= dir.y <= 1,
            0 <= dir.z <= 1,
            next.coord.y == self.coord.y + dir.y,
            next.follows_level(h),
            self.clear_of(h),
        ensures
            next.face_sided(dir, h < self.spec_row(0)),
    {
        let above = h < self.spec_row(0);
        let size = spec_chunk_size(self.degree);
        self.lemma_frame_bounds();
        next.lemma_frame_bounds();
        assert forall|c: IVec3|
            c.within(0, size) && (dir.x == 1 ==> c.x == 0) && (dir.y == 1 ==> c.y == 0) && (dir.z
                == 1 ==> c.z == 0) implies (#[trigger] next.spec_sample(c) > 128) == above by {
            next.lemma_row(c);
            if dir.y == 1 {
                assert((self.coord.y + 1) * size == self.coord.y * size + size) by (nonlinear_arith);
                assert(next.spec_row(0) == self.spec_row(size));
            } else {
                assert(next.spec_row(c.y as int) == self.spec_row(c.y as int));
            }
        }
    }
}

impl ChunkManager {
    /// The stored chunks follow the level field of height `h`, and a chunk
    /// clear of that height has a surface without points, where it has
    /// one, and no mesh.
    pub open spec fn levelled(&self, h: int) -> bool {
        &&& forall|k: SeaHashKey| #[trigger]
            self.chunks@.contains_key(k) ==> self.chunks@[k].follows_level(h)
        &&& forall|k: SeaHashKey| #[trigger]
            self.surface_maps@.contains_key(k) && self.chunks@[k].clear_of(h)
                ==> self.surface_maps@[k]@.dom() =~= Set::<u64>::empty()
        &&& forall|k: SeaHashKey| #[trigger]
            self.meshes@.contains_key(k) ==> !self.chunks@[k].clear_of(h)
    }

    /// The chunk stored under the key of the place `c` is the chunk at `c`.
    pub proof fn lemma_stored_at(&self, c: IVec3)
        requires
            self.tables_ok(),
            crate::world::chunk::chunk_addressable(c, self.chunk_degree),
            self.chunks@.contains_key(self.key_of(c)),
        ensures
            self.chunks@[self.key_of(c)].coord == c,
    {
        assert(c.spec_plus(IVec3 { x: 0, y: 0, z: 0 }) == c);
        self.lemma_stored_place(c, IVec3 { x: 0, y: 0, z: 0 });
    }

    /// The chunk stored under the key of a place next to `c` is the chunk there.
    proof fn lemma_stored_place(&self, c: IVec3, step: IVec3)
        requires
            self.tables_ok(),
            crate::world::chunk::chunk_addressable(c, self.chunk_degree),
            -1 <= step.x <= 1,
            -1 <= step.y <= 1,
            -1 <= step.z <= 1,
            self.chunks@.contains_key(self.key_of(c.spec_plus(step))),
        ensures
            self.chunks@[self.key_of(c.spec_plus(step))].coord == c.spec_plus(step),
            c.can_plus(step),
    {
        let x = c.spec_plus(step);
        let chunk = self.chunks@[self.key_of(x)];
        self.lemma_keyable(c, step);
        self.lemma_keyable(chunk.coord, IVec3 { x: 0, y: 0, z: 0 });
        lemma_chunk_key_injective(self.chunk_size, x, chunk.coord);
    }

    /// Where the stored chunk at `c` and the stored chunks that follow it in
    /// the positive directions lie on one side of the surface, as in a
    /// uniform field, the surface of the chunk has no point.
    pub proof fn lemma_one_sided_surface(&self, c: IVec3, tree: SurfaceOctree, above: bool)
        requires
            self.tables_ok(),
            self.chunks@.contains_key(self.key_of(c)),
            self.chunks@[self.key_of(c)].one_sided(above),
            forall|k: int|
                #![trigger IDirection::spec_positive_dirs()[k]]
                0 <= k < 8 && self.chunks@.contains_key(
                    self.key_of(c.spec_plus(IDirection::spec_positive_dirs()[k])),
                ) ==> self.chunks@[self.key_of(
                    c.spec_plus(IDirection::spec_positive_dirs()[k]),
                )].one_sided(above),
            self.chunks@[self.key_of(c)].is_surface_of(
                tree,
                self.spec_neighbor_chunks(c, IDirection::spec_positive_dirs()),
            ),
        ensures
            tree@.dom() =~= Set::<u64>::empty(),
    {
        let dirs = IDirection::spec_positive_dirs();
        let neighbors = self.spec_neighbor_chunks(c, dirs);
        let chunk = self.chunks@[self.key_of(c)];
        assert forall|k: int| 0 <= k < 8 && (#[trigger] neighbors[k]) is Some implies neighbors[k].unwrap().degree
            == chunk.degree && neighbors[k].unwrap().face_sided(dirs[k], above) by {
            let next_key = self.key_of(c.spec_plus(dirs[k]));
            assert(self.chunks@.contains_key(next_key));
            assert(self.chunks@[next_key].one_sided(above));
        }
        chunk.lemma_one_side_no_surface(tree, neighbors, above);
    }

    /// One operation in a level field keeps the manager levelled.
    pub proof fn lemma_level_step<F: Fn(IVec3) -> u8>(
        pre: &ChunkManager,
        post: &ChunkManager,
        df: &F,
        h: int,
    )
        requires
            pre.wf(),
            Self::stepped(pre, post, df),
            level_field(df, h),
            pre.levelled(h),
        ensures
            post.levelled(h),
    {
        reveal(ChunkManager::stepped);
        let zero = IVec3 { x: 0, y: 0, z: 0 };
        if pre.queue_chunk@.len() > 0 {
            let c = pre.queue_chunk@.last();
            let key = pre.key_of(c);
            assert(pre.queue_chunk@[pre.queue_chunk@.len() - 1] == c);
            assert(pre.queue_chunk@.contains(c));
            assert(!pre.chunks@.contains_key(key));
            assert(!pre.surface_maps@.contains_key(key));
            assert(!pre.meshes@.contains_key(key));
            assert(post.chunks@[key].follows_level(h));
        } else if pre.queue_sfp@.len() > 0 {
            let c = pre.queue_sfp@.last();
            let key = pre.key_of(c);
            assert(pre.queue_sfp@[pre.queue_sfp@.len() - 1] == c);
            assert(pre.queue_sfp@.contains(c));
            assert(pre.waits(c));
            assert(pre.chunks@.contains_key(key));
            let chunk = pre.chunks@[key];
            if chunk.clear_of(h) {
                let above = h < chunk.spec_row(0);
                let dirs = IDirection::spec_positive_dirs();
                let neighbors = pre.spec_neighbor_chunks(c, dirs);
                assert(c.spec_plus(zero) == c);
                pre.lemma_stored_place(c, zero);
                chunk.lemma_clear_one_sided(h);
                assert forall|k: int| 0 <= k < 8 && (#[trigger] neighbors[k]) is Some implies neighbors[k].unwrap().degree
                    == chunk.degree && neighbors[k].unwrap().face_sided(dirs[k], above) by {
                    let next_key = pre.key_of(c.spec_plus(dirs[k]));
                    assert(pre.chunks@.contains_key(next_key));
                    pre.lemma_stored_place(c, dirs[k]);
                    chunk.lemma_clear_face(&pre.chunks@[next_key], dirs[k], h);
                }
                chunk.lemma_one_side_no_surface(post.surface_maps@[key], neighbors, above);
            }
        } else if pre.queue_mesh@.len() > 0 {
            let c = pre.queue_mesh@.last();
            let key = pre.key_of(c);
            assert(pre.queue_mesh@[pre.queue_mesh@.len() - 1] == c);
            assert(pre.queue_mesh@.contains(c));
            assert(pre.waits(c));
            assert(pre.surface_maps@.contains_key(key));
            assert(pre.chunks@.contains_key(key));
            if pre.chunks@[key].clear_of(h) {
                assert(pre.surface_maps@[key]@.dom() =~= Set::<u64>::empty());
                assert forall|l: u64| !pre.surface_maps@[key]@.contains_key(l) by {
                    assert(!Set::<u64>::empty().contains(l));
                }
                pre.lemma_size_bounds();
                let n = pre.chunk_size as int;
                assert(0 <= n * n * n) by (nonlinear_arith)
                    requires
                        0 <= n,
                ;
                pre.lemma_no_surface_no_mesh(c, (n * n * n) as nat);
            }
        }
    }

    /// The operations of a frame in a level field keep the manager levelled.
    proof fn lemma_level_work<F: Fn(IVec3) -> u8>(trace: Seq<ChunkManager>, df: &F, h: int, i: int)
        requires
            Self::worked(trace, df),
            level_field(df, h),
            0 <= i < trace.len(),
            trace[0].levelled(h),
        ensures
            trace[i].levelled(h),
        decreases i,
    {
        if i > 0 {
            Self::lemma_level_work(trace, df, h, i - 1);
            assert(trace[i - 1].wf());
            assert(Self::stepped(&trace[i - 1], &trace[i - 1 + 1], df));
            Self::lemma_level_step(&trace[i - 1], &trace[i], df, h);
        }
    }

    /// A frame in a level field keeps the manager levelled: whatever chunks
    /// it samples, those clear of the height of the field get no surface
    /// point and no mesh.
    pub proof fn lemma_level_frame<F: Fn(IVec3) -> u8>(
        pre: &ChunkManager,
        post: &ChunkManager,
        cur: IVec3,
        df: &F,
        h: int,
    )
        requires
            pre.wf(),
            Self::frame_of(pre, post, cur, df),
            level_field(df, h),
            pre.levelled(h),
        ensures
            post.levelled(h),
    {
        if !pre.in_reach(cur) {
            return ;
        }
        let trace = choose|trace: Seq<ChunkManager>| #[trigger]
            Self::framed_by(pre, post, cur, df, trace);
        let a = choose|a: ChunkManager| #[trigger]
            Self::scanned(pre, &a, cur) && Self::cleared(&a, &trace[0]);
        Self::lemma_scan_grows(pre, &a, cur);
        assert(trace[0].levelled(h));
        Self::lemma_level_work(trace, df, h, trace.len() - 1);
    }

    /// A manager without chunks is levelled at every height.
    pub proof fn lemma_empty_levelled(&self, h: int)
        requires
            self.wf(),
            self.chunks@ =~= Map::<SeaHashKey, WorldChunk>::empty(),
        ensures
            self.levelled(h),
    {
    }

    /// In a field on one side of the surface no stored surface holds a
    /// point, and no mesh is stored.
    pub proof fn lemma_flat_bare(&self, above: bool)
        requires
            self.wf(),
            self.levelled(flat_level(above)),
        ensures
            forall|k: SeaHashKey| #[trigger]
                self.surface_maps@.contains_key(k) ==> self.surface_maps@[k]@.dom() =~= Set::<
                    u64,
                >::empty(),
            self.meshes@ =~= Map::<SeaHashKey, IndexedMesh>::empty(),
    {
        assert forall|k: SeaHashKey| #[trigger] self.chunks@.contains_key(k) implies self.chunks@[k].clear_of(
            flat_level(above),
        ) by {
            self.chunks@[k].lemma_clear_of_flat(above);
        }
    }

    /// In the field of the plane of height zero only the chunks of the
    /// layer that the plane passes through get surface points and a mesh.
    pub proof fn lemma_plane_bare(&self, k: SeaHashKey)
        requires
            self.wf(),
            self.levelled(0),
            self.chunks@.contains_key(k),
            self.chunks@[k].coord.y != 0,
        ensures
            self.surface_maps@.contains_key(k) ==> self.surface_maps@[k]@.dom() =~= Set::<
                u64,
            >::empty(),
            !self.meshes@.contains_key(k),
    {
        self.chunks@[k].lemma_clear_of_plane();
    }
}

} // verus!
