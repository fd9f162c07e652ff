//! The plan of buffer writes of a frame: which mesh goes to which slot, and
//! which slots are wiped. The buffers themselves belong to the renderer.
use crate::hasher::SeaHashKey;
use crate::hasher::SeaHashSet;
use crate::render::mesh::IndexedMesh;
use crate::render::pool::listed_keys;
use crate::render::pool::BucketCoord;
use crate::render::pool::BucketPool;
use crate::render::pool::PoolModel;
use vstd::prelude::*;

verus! {

/// The size of one vertex in a vertex buffer: position, normal and colour,
/// four 32-bit numbers each.
pub const VERTEX_BYTES: usize = 48;

/// The size of the vertices of one mesh: 512 vertices.
pub const VERTEX_BUCKET_BYTES: usize = 24576;

/// The size of the indices of one mesh: 3072 indices of 32 bits.
pub const INDEX_BUCKET_BYTES: usize = 12288;

/// One write to the buffers.
#[derive(Clone, Copy, Debug, PartialEq, Eq, Structural)]
pub enum BufferWrite {
    /// The mesh at place `visible` of the visible list goes to a slot: its
    /// vertices to `vertex_offset` of vertex buffer `buffer`, its indices,
    /// each raised by `first_vertex`, to `index_offset` of index buffer `buffer`.
    Mesh { buffer: u16, vertex_offset: u64, index_offset: u64, first_vertex: u32, visible: usize },
    /// The indices of a freed slot are wiped: `INDEX_BUCKET_BYTES` zero
    /// bytes go to `index_offset` of index buffer `buffer`.
    Clear { buffer: u16, index_offset: u64 },
}

/// The write that brings the mesh at place `visible` to the slot `slot`.
pub open spec fn spec_mesh_write(slot: BucketCoord, visible: int) -> BufferWrite {
    BufferWrite::Mesh {
        buffer: slot.buffer,
        vertex_offset: (slot.offset * VERTEX_BUCKET_BYTES) as u64,
        index_offset: (slot.offset * INDEX_BUCKET_BYTES) as u64,
        first_vertex: (slot.offset * 512) as u32,
        visible: visible as usize,
    }
}

/// The write that wipes the indices of the slot `slot`.
pub open spec fn spec_clear_write(slot: BucketCoord) -> BufferWrite {
    BufferWrite::Clear {
        buffer: slot.buffer,
        index_offset: (slot.offset * INDEX_BUCKET_BYTES) as u64,
    }
}

/// The pool and the writes after the first `n` visible meshes have asked for
/// their slots: a mesh that gets a slot, or holds one and was updated, is
/// written to it.
pub open spec fn spec_uploads(
    pool: PoolModel,
    visible: Seq<(SeaHashKey, &IndexedMesh)>,
    updated: Set<SeaHashKey>,
    n: nat,
) -> (PoolModel, Seq<BufferWrite>)
    decreases n,
{
    if n == 0 {
        (pool, Seq::empty())
    } else {
        let before = spec_uploads(pool, visible, updated, (n - 1) as nat);
        let asked = before.0.reserve(visible[n - 1].0, updated);
        match asked.1 {
            Some(slot) => (asked.0, before.1.push(spec_mesh_write(slot, n - 1))),
            None => (asked.0, before.1),
        }
    }
}

/// The writes that wipe the first `n` of the given slots.
pub open spec fn spec_clears(lost: Seq<BucketCoord>, n: nat) -> Seq<BufferWrite>
    decreases n,
{
    if n == 0 {
        Seq::empty()
    } else {
        spec_clears(lost, (n - 1) as nat).push(spec_clear_write(lost[n - 1]))
    }
}

/// The pool and the writes of a whole frame: the uploads of the visible
/// meshes, and, where more keys hold a slot than meshes are visible, the
/// freeing of the slots of all other keys and the wiping of their indices.
pub open spec fn spec_frame_writes(
    pool: PoolModel,
    visible: Seq<(SeaHashKey, &IndexedMesh)>,
    updated: Set<SeaHashKey>,
) -> (PoolModel, Seq<BufferWrite>) {
    let uploaded = spec_uploads(pool, visible, updated, visible.len());
    if uploaded.0.order.len() > visible.len() {
        let keep = listed_keys(visible);
        (
            uploaded.0.keep(keep),
            uploaded.1 + spec_clears(uploaded.0.lost(keep), uploaded.0.lost(keep).len()),
        )
    } else {
        uploaded
    }
}

/// The sizes of the buffers and of their slots, and the pool of slots.
pub struct IndexedBufferManager {
    pub num_buffers: usize,
    pub vertex_buffer_size: usize,
    pub vertex_bucket_size: usize,
    pub index_buffer_size: usize,
    pub index_bucket_size: usize,
    pub num_buckets: usize,
    pub buckets: BucketPool,
}

impl IndexedBufferManager {
    pub open spec fn wf(&self) -> bool {
        &&& self.vertex_bucket_size == VERTEX_BUCKET_BYTES
        &&& self.index_bucket_size == INDEX_BUCKET_BYTES
        &&& self.num_buckets == self.vertex_buffer_size / VERTEX_BUCKET_BYTES
        &&& self.index_buffer_size == INDEX_BUCKET_BYTES * self.num_buckets
        &&& self.buckets.wf()
        &&& self.buckets.dims == self.num_buffers
        &&& self.buckets.size == self.num_buckets
    }

    /// The manager of `num_buffers` pairs of buffers: vertex buffers of
    /// `max_buffer_size` bytes, cut into as many slots as fit, and index
    /// buffers of as many slots.
    pub fn new(num_buffers: usize, max_buffer_size: usize) -> (manager: Self)
        requires
            num_buffers <= u16::MAX,
            max_buffer_size / VERTEX_BUCKET_BYTES <= u16::MAX,
        ensures
            manager.wf(),
            manager.num_buffers == num_buffers,
            manager.vertex_buffer_size == max_buffer_size,
            manager.buckets@ == PoolModel::fresh(
                num_buffers as u16,
                (max_buffer_size / VERTEX_BUCKET_BYTES) as u16,
            ),
    {
        let vertex_bucket_size = VERTEX_BUCKET_BYTES;
        let vertex_buffer_size = max_buffer_size;
        let num_buckets = vertex_buffer_size / vertex_bucket_size;
        let index_bucket_size = INDEX_BUCKET_BYTES;
        let index_buffer_size = index_bucket_size * num_buckets;
        IndexedBufferManager {
            num_buffers,
            vertex_buffer_size,
            vertex_bucket_size,
            index_buffer_size,
            index_bucket_size,
            num_buckets,
            buckets: BucketPool::new(num_buffers as u16, num_buckets as u16),
        }
    }

    /// The write that brings the mesh at place `visible` to the slot `slot`.
    fn mesh_write(&self, slot: BucketCoord, visible: usize) -> (write: BufferWrite)
        requires
            self.wf(),
        ensures
            write == spec_mesh_write(slot, visible as int),
    {
        BufferWrite::Mesh {
            buffer: slot.buffer,
            vertex_offset: slot.offset as u64 * self.vertex_bucket_size as u64,
            index_offset: slot.offset as u64 * self.index_bucket_size as u64,
            first_vertex: slot.offset as u32 * 512,
            visible,
        }
    }

    /// The write that wipes the indices of the slot `slot`.
    fn clear_write(&self, slot: BucketCoord) -> (write: BufferWrite)
        requires
            self.wf(),
        ensures
            write == spec_clear_write(slot),
    {
        BufferWrite::Clear {
            buffer: slot.buffer,
            index_offset: slot.offset as u64 * self.index_bucket_size as u64,
        }
    }

    /// Plans the buffer writes of a frame for the visible meshes, of which
    /// those with a key in `updated` were rebuilt: see `spec_frame_writes`.
    pub fn update(
        &mut self,
        visible: &Vec<(SeaHashKey, &IndexedMesh)>,
        updated: &SeaHashSet<SeaHashKey>,
    ) -> (writes: Vec<BufferWrite>)
        requires
            old(self).wf(),
        ensures
            final(self).wf(),
            final(self).num_buffers == old(self).num_buffers,
            final(self).vertex_buffer_size == old(self).vertex_buffer_size,
            (final(self).buckets@, writes@) == spec_frame_writes(
                old(self).buckets@,
                visible@,
                updated@,
            ),
    {
        let mut writes: Vec<BufferWrite> = Vec::new();
        let mut i: usize = 0;
        while i < visible.len()
            invariant
                i <= visible@.len(),
                self.wf(),
                self.num_buffers == old(self).num_buffers,
                self.vertex_buffer_size == old(self).vertex_buffer_size,
                (self.buckets@, writes@) == spec_uploads(
                    old(self).buckets@,
                    visible@,
                    updated@,
                    i as nat,
                ),
            decreases visible@.len() - i,
        {
            let c = self.buckets.reserve(&visible[i].0, updated);
            match c {
                None => {},
                Some(c) => {
                    let write = self.mesh_write(c, i);
                    writes.push(write);
                },
            }
            i += 1;
        }
        // free the slots of the meshes that are no longer visible
        if self.buckets.len() > visible.len() {
            let ghost uploaded = self.buckets@;
            let ghost planned = writes@;
            let removed = self.buckets.keep_reserved(visible);
            proof {
                uploaded.lemma_keep_upto(listed_keys(visible@), uploaded.order.len());
            }
            let mut j: usize = 0;
            assert(writes@ =~= planned + spec_clears(removed@, 0));
            while j < removed.len()
                invariant
                    j <= removed@.len(),
                    self.wf(),
                    writes@ == planned + spec_clears(removed@, j as nat),
                decreases removed@.len() - j,
            {
                let write = self.clear_write(removed[j]);
                writes.push(write);
                assert(writes@ =~= planned + spec_clears(removed@, (j + 1) as nat));
                j += 1;
            }
        }
        writes
    }
}

} // verus!
