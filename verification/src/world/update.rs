//! The work of one frame: what is missing around the viewer is queued, and
//! the chunks that wait advance through the three stages.
use crate::direction::IDirection;
use crate::hasher::SeaHashKey;
use crate::hasher::SeaHashMap;
use crate::hasher::SeaHashSet;
use crate::math::coord2key;
use crate::math::fits_i32;
use crate::math::IVec3;
use crate::seqs::lemma_concat_contains;
use crate::seqs::lemma_drop_last_contains;
use crate::seqs::lemma_push_contains;
use crate::seqs::lemma_push_distinct;
use crate::world::chunk::chunk_addressable;
use crate::world::manager::chunk_keyable;
use crate::world::manager::lemma_chunk_key_injective;
use crate::world::manager::spec_chunk_key;
use crate::render::mesh::IndexedMesh;
use crate::world::manager::ChunkManager;
use crate::world::morton::spec_chunk_size;
use crate::world::nearby::spec_shell;
use crate::world::nearby::spec_visit_rank;
use crate::world::nearby::visit_ordered;
use vstd::prelude::*;

verus! {

/// The chunks next to `c` that are woken after the first `n` directions were
/// looked at, and the pending keys then: a neighbour is woken where it is
/// stored and not pending, and is pending from then on.
pub open spec fn spec_wake(
    size: i32,
    stored: Set<SeaHashKey>,
    pending: Set<SeaHashKey>,
    c: IVec3,
    dirs: Seq<IVec3>,
    n: nat,
) -> (Seq<IVec3>, Set<SeaHashKey>)
    decreases n,
{
    if n == 0 {
        (Seq::empty(), pending)
    } else {
        let before = spec_wake(size, stored, pending, c, dirs, (n - 1) as nat);
        let cc = c.spec_plus(dirs[n - 1]);
        let key = spec_chunk_key(size, cc);
        if stored.contains(key) && !before.1.contains(key) {
            (before.0.push(cc), before.1.insert(key))
        } else {
            before
        }
    }
}

/// `k` is the key of one of the listed chunks.
pub open spec fn key_among(size: i32, list: Seq<IVec3>, k: SeaHashKey) -> bool {
    exists|x: IVec3| list.contains(x) && #[trigger] spec_chunk_key(size, x) == k
}

/// `x` is reached from `c` by one of the first `n` directions.
pub open spec fn step_among(c: IVec3, dirs: Seq<IVec3>, n: nat, x: IVec3) -> bool {
    exists|j: int| 0 <= j < n && x == #[trigger] c.spec_plus(dirs[j])
}

/// The pending keys grow by the keys of the woken chunks.
pub proof fn lemma_wake_pending(
    size: i32,
    stored: Set<SeaHashKey>,
    pending: Set<SeaHashKey>,
    c: IVec3,
    dirs: Seq<IVec3>,
    n: nat,
    k: SeaHashKey,
)
    ensures
        spec_wake(size, stored, pending, c, dirs, n).1.contains(k) <==> pending.contains(k)
            || key_among(size, spec_wake(size, stored, pending, c, dirs, n).0, k),
    decreases n,
{
    if n > 0 {
        let before = spec_wake(size, stored, pending, c, dirs, (n - 1) as nat);
        let woken = spec_wake(size, stored, pending, c, dirs, n);
        lemma_wake_pending(size, stored, pending, c, dirs, (n - 1) as nat, k);
        let cc = c.spec_plus(dirs[n - 1]);
        let key = spec_chunk_key(size, cc);
        if stored.contains(key) && !before.1.contains(key) {
            if key_among(size, before.0, k) {
                let x = choose|x: IVec3| before.0.contains(x) && #[trigger] spec_chunk_key(size, x) == k;
                lemma_push_contains(before.0, cc, x);
                assert(woken.0.contains(x) && spec_chunk_key(size, x) == k);
            }
            if k == key {
                lemma_push_contains(before.0, cc, cc);
                assert(woken.0.contains(cc) && spec_chunk_key(size, cc) == k);
            }
            if key_among(size, woken.0, k) {
                let x = choose|x: IVec3| woken.0.contains(x) && #[trigger] spec_chunk_key(size, x) == k;
                lemma_push_contains(before.0, cc, x);
                if x != cc {
                    assert(before.0.contains(x) && spec_chunk_key(size, x) == k);
                }
            }
        }
    }
}

/// Each woken chunk is a stored neighbour that was not pending, and none comes twice.
pub proof fn lemma_wake(
    size: i32,
    stored: Set<SeaHashKey>,
    pending: Set<SeaHashKey>,
    c: IVec3,
    dirs: Seq<IVec3>,
    n: nat,
)
    requires
        n <= dirs.len(),
    ensures
        spec_wake(size, stored, pending, c, dirs, n).0.no_duplicates(),
        forall|x: IVec3| #[trigger]
            spec_wake(size, stored, pending, c, dirs, n).0.contains(x) ==> stored.contains(
                spec_chunk_key(size, x),
            ) && !pending.contains(spec_chunk_key(size, x)) && step_among(c, dirs, n, x),
    decreases n,
{
    if n > 0 {
        let p = (n - 1) as nat;
        let before = spec_wake(size, stored, pending, c, dirs, p);
        let woken = spec_wake(size, stored, pending, c, dirs, n);
        lemma_wake(size, stored, pending, c, dirs, p);
        let cc = c.spec_plus(dirs[n - 1]);
        let key = spec_chunk_key(size, cc);
        assert(step_among(c, dirs, n, cc)) by {
            assert(cc == c.spec_plus(dirs[n - 1]));
        }
        assert forall|x: IVec3| step_among(c, dirs, p, x) implies step_among(c, dirs, n, x) by {
            let j = choose|j: int| 0 <= j < p && x == #[trigger] c.spec_plus(dirs[j]);
            assert(0 <= j < n && x == c.spec_plus(dirs[j]));
        }
        if stored.contains(key) && !before.1.contains(key) {
            lemma_wake_pending(size, stored, pending, c, dirs, p, key);
            if before.0.contains(cc) {
                assert(key_among(size, before.0, key));
            }
            lemma_push_distinct(before.0, cc);
            assert forall|x: IVec3| #[trigger] woken.0.contains(x) implies stored.contains(
                spec_chunk_key(size, x),
            ) && !pending.contains(spec_chunk_key(size, x)) && step_among(c, dirs, n, x) by {
                lemma_push_contains(before.0, cc, x);
            }
        }
    }
}

/// Wakes the chunks next to `c`: each that is stored in `table` and not
/// pending is marked pending and put at the end of `queue`.
fn wake_neighbors<V>(
    table: &SeaHashMap<SeaHashKey, V>,
    pending: &mut SeaHashSet<SeaHashKey>,
    queue: &mut Vec<IVec3>,
    c: IVec3,
    dirs: &[IVec3; 8],
    size: i32,
)
    requires
        forall|i: int|
            0 <= i < 8 ==> c.can_plus(#[trigger] dirs@[i]) && chunk_keyable(
                size,
                c.spec_plus(dirs@[i]),
            ),
    ensures
        final(queue)@ == old(queue)@ + spec_wake(
            size,
            table@.dom(),
            old(pending)@,
            c,
            dirs@,
            8,
        ).0,
        final(pending)@ == spec_wake(size, table@.dom(), old(pending)@, c, dirs@, 8).1,
{
    let mut i: usize = 0;
    assert(queue@ =~= old(queue)@ + spec_wake(size, table@.dom(), old(pending)@, c, dirs@, 0).0);
    while i < 8
        invariant
            i <= 8,
            dirs@.len() == 8,
            forall|i: int|
                0 <= i < 8 ==> c.can_plus(#[trigger] dirs@[i]) && chunk_keyable(
                    size,
                    c.spec_plus(dirs@[i]),
                ),
            queue@ == old(queue)@ + spec_wake(
                size,
                table@.dom(),
                old(pending)@,
                c,
                dirs@,
                i as nat,
            ).0,
            pending@ == spec_wake(size, table@.dom(), old(pending)@, c, dirs@, i as nat).1,
        decreases 8 - i,
    {
        let cc = c.plus(dirs[i]);
        proof {
            reveal(chunk_keyable);
        }
        let key = coord2key(cc.scaled(size));
        let ghost before = spec_wake(size, table@.dom(), old(pending)@, c, dirs@, i as nat);
        if table.contains_key(&key) && !pending.contains(&key) {
            pending.insert(key);
            queue.push(cc);
            assert(queue@ =~= old(queue)@ + before.0.push(cc));
        }
        i += 1;
    }
}

impl ChunkManager {
    /// The settings are as in `old`.
    pub open spec fn same_config(&self, old: &ChunkManager) -> bool {
        &&& self.chunk_size == old.chunk_size
        &&& self.chunk_degree == old.chunk_degree
        &&& self.view_dist == old.view_dist
        &&& self.gen_dist == old.gen_dist
        &&& self.operations_per_frame == old.operations_per_frame
    }

    /// The first stage, from `pre` to `post`: the chunk at the end of the
    /// first queue is sampled and stored; the stored chunks behind it that
    /// are not pending are woken for the second stage, since their surface
    /// reaches into the new chunk; and the chunk itself follows them.
    pub open spec fn chunk_stage<F: Fn(IVec3) -> u8>(
        pre: &ChunkManager,
        post: &ChunkManager,
        df: &F,
    ) -> bool {
        let c = pre.queue_chunk@.last();
        let key = pre.key_of(c);
        let woken = spec_wake(
            pre.chunk_size,
            post.chunks@.dom(),
            pre.operation_pending@,
            c,
            IDirection::spec_negative_dirs(),
            8,
        );
        &&& post.same_config(pre)
        &&& post.surface_maps == pre.surface_maps
        &&& post.meshes == pre.meshes
        &&& post.queue_mesh == pre.queue_mesh
        &&& post.chunk_updated == pre.chunk_updated
        &&& post.queue_chunk@ == pre.queue_chunk@.drop_last()
        &&& post.chunks@.contains_key(key)
        &&& post.chunks@ == pre.chunks@.insert(key, post.chunks@[key])
        &&& post.chunks@[key].wf()
        &&& post.chunks@[key].coord == c
        &&& post.chunks@[key].degree == pre.chunk_degree
        &&& forall|v: IVec3|
            v.within(0, spec_chunk_size(pre.chunk_degree)) ==> call_ensures(
                df,
                (post.chunks@[key].spec_coord2pos(v),),
                #[trigger] post.chunks@[key].spec_sample(v),
            )
        &&& post.queue_sfp@ == pre.queue_sfp@ + woken.0.push(c)
        &&& post.operation_pending@ == woken.1
    }

    /// The second stage, from `pre` to `post`: the surface of the chunk at
    /// the end of the second queue is extracted and stored; the chunks in
    /// front of it that have a surface and are not pending are woken for the
    /// third stage, since their mesh uses the new surface; and the chunk
    /// itself follows them.
    pub open spec fn sfp_stage(pre: &ChunkManager, post: &ChunkManager) -> bool {
        let c = pre.queue_sfp@.last();
        let key = pre.key_of(c);
        let woken = spec_wake(
            pre.chunk_size,
            post.surface_maps@.dom(),
            pre.operation_pending@,
            c,
            IDirection::spec_positive_dirs(),
            8,
        );
        &&& post.same_config(pre)
        &&& post.chunks == pre.chunks
        &&& post.meshes == pre.meshes
        &&& post.queue_chunk == pre.queue_chunk
        &&& post.chunk_updated == pre.chunk_updated
        &&& post.queue_sfp@ == pre.queue_sfp@.drop_last()
        &&& post.surface_maps@.contains_key(key)
        &&& post.surface_maps@ == pre.surface_maps@.insert(key, post.surface_maps@[key])
        &&& pre.chunks@[key].is_surface_of(
            post.surface_maps@[key],
            pre.spec_neighbor_chunks(c, IDirection::spec_positive_dirs()),
        )
        &&& post.queue_mesh@ == pre.queue_mesh@ + woken.0.push(c)
        &&& post.operation_pending@ == woken.1
    }

    /// The third stage, from `pre` to `post`: the mesh of the chunk at the
    /// end of the third queue is built, and stored where it holds a
    /// triangle; a chunk without triangles has no mesh from then on. The
    /// chunk is no longer pending, and it is among the updated chunks of the
    /// frame.
    pub open spec fn mesh_stage(pre: &ChunkManager, post: &ChunkManager) -> bool {
        let c = pre.queue_mesh@.last();
        let key = pre.key_of(c);
        &&& post.same_config(pre)
        &&& post.chunks == pre.chunks
        &&& post.surface_maps == pre.surface_maps
        &&& post.queue_chunk == pre.queue_chunk
        &&& post.queue_sfp == pre.queue_sfp
        &&& post.queue_mesh@ == pre.queue_mesh@.drop_last()
        &&& pre.meshed(post, c)
        &&& post.operation_pending@ == pre.operation_pending@.remove(key)
        &&& post.chunk_updated@ == pre.chunk_updated@.insert(key)
    }

    /// A chunk that was woken is addressable: it is stored, or has a surface
    /// stored, under its key.
    proof fn lemma_woken_addressable(&self, c: IVec3, step: IVec3, stored: SeaHashKey)
        requires
            self.tables_ok(),
            chunk_addressable(c, self.chunk_degree),
            -1 <= step.x <= 1,
            -1 <= step.y <= 1,
            -1 <= step.z <= 1,
            stored == self.key_of(c.spec_plus(step)),
            self.chunks@.contains_key(stored),
        ensures
            chunk_addressable(c.spec_plus(step), self.chunk_degree),
    {
        let x = c.spec_plus(step);
        let chunk = self.chunks@[stored];
        self.lemma_keyable(c, step);
        self.lemma_keyable(chunk.coord, IVec3 { x: 0, y: 0, z: 0 });
        lemma_chunk_key_injective(self.chunk_size, x, chunk.coord);
    }

    /// Two chunks that wait, or could wait, have different keys.
    proof fn lemma_keys_differ(&self, a: IVec3, b: IVec3)
        requires
            self.config_ok(),
            chunk_addressable(a, self.chunk_degree),
            chunk_addressable(b, self.chunk_degree),
            a != b,
        ensures
            self.key_of(a) != self.key_of(b),
    {
        self.lemma_keyable(a, IVec3 { x: 0, y: 0, z: 0 });
        self.lemma_keyable(b, IVec3 { x: 0, y: 0, z: 0 });
        if self.key_of(a) == self.key_of(b) {
            lemma_chunk_key_injective(self.chunk_size, a, b);
        }
    }

    /// After the first stage every stored chunk is pending or has its surface.
    proof fn lemma_settled_chunk(pre: &ChunkManager, post: &ChunkManager)
        requires
            pre.settled_ok(),
            pre.queue_chunk@.len() > 0,
            pre.operation_pending@.contains(pre.key_of(pre.queue_chunk@.last())),
            post.surface_maps == pre.surface_maps,
            post.chunks@ == pre.chunks@.insert(
                pre.key_of(pre.queue_chunk@.last()),
                post.chunks@[pre.key_of(pre.queue_chunk@.last())],
            ),
            post.operation_pending@ == spec_wake(
                pre.chunk_size,
                post.chunks@.dom(),
                pre.operation_pending@,
                pre.queue_chunk@.last(),
                IDirection::spec_negative_dirs(),
                8,
            ).1,
        ensures
            post.settled_ok(),
    {
        assert forall|k: SeaHashKey| #[trigger] post.chunks@.contains_key(k) implies post.operation_pending@.contains(
            k,
        ) || post.surface_maps@.contains_key(k) by {
            lemma_wake_pending(
                pre.chunk_size,
                post.chunks@.dom(),
                pre.operation_pending@,
                pre.queue_chunk@.last(),
                IDirection::spec_negative_dirs(),
                8,
                k,
            );
            if k != pre.key_of(pre.queue_chunk@.last()) {
                assert(pre.chunks@.contains_key(k));
            }
        }
    }

    /// After the second stage every stored chunk is pending or has its surface.
    proof fn lemma_settled_sfp(pre: &ChunkManager, post: &ChunkManager)
        requires
            pre.settled_ok(),
            pre.queue_sfp@.len() > 0,
            post.chunks == pre.chunks,
            forall|k: SeaHashKey|
                pre.surface_maps@.contains_key(k) ==> #[trigger] post.surface_maps@.contains_key(k),
            post.operation_pending@ == spec_wake(
                pre.chunk_size,
                post.surface_maps@.dom(),
                pre.operation_pending@,
                pre.queue_sfp@.last(),
                IDirection::spec_positive_dirs(),
                8,
            ).1,
        ensures
            post.settled_ok(),
    {
        assert forall|k: SeaHashKey| #[trigger] post.chunks@.contains_key(k) implies post.operation_pending@.contains(
            k,
        ) || post.surface_maps@.contains_key(k) by {
            lemma_wake_pending(
                pre.chunk_size,
                post.surface_maps@.dom(),
                pre.operation_pending@,
                pre.queue_sfp@.last(),
                IDirection::spec_positive_dirs(),
                8,
                k,
            );
            assert(pre.chunks@.contains_key(k));
        }
    }

    /// Where the pending keys and the surfaces only grow, or a key that is
    /// no longer pending has a surface, and no chunk is new, every stored
    /// chunk is still pending or has its surface.
    proof fn lemma_settled_kept(pre: &ChunkManager, post: &ChunkManager)
        requires
            pre.settled_ok(),
            post.chunks == pre.chunks,
            forall|k: SeaHashKey|
                pre.surface_maps@.contains_key(k) ==> #[trigger] post.surface_maps@.contains_key(k),
            forall|k: SeaHashKey|
                pre.operation_pending@.contains(k) ==> #[trigger] post.operation_pending@.contains(k)
                    || post.surface_maps@.contains_key(k),
        ensures
            post.settled_ok(),
    {
        assert forall|k: SeaHashKey| #[trigger] post.chunks@.contains_key(k) implies post.operation_pending@.contains(
            k,
        ) || post.surface_maps@.contains_key(k) by {
            assert(pre.chunks@.contains_key(k));
            if pre.operation_pending@.contains(k) {
                assert(post.operation_pending@.contains(k) || post.surface_maps@.contains_key(k));
            } else {
                assert(post.surface_maps@.contains_key(k));
            }
        }
    }

    /// After the first stage the queues are in order.
    proof fn lemma_chunk_stage(pre: &ChunkManager, post: &ChunkManager)
        requires
            pre.wf(),
            pre.queue_chunk@.len() > 0,
            post.tables_ok(),
            post.same_config(pre),
            post.surface_maps == pre.surface_maps,
            post.queue_mesh == pre.queue_mesh,
            post.queue_chunk@ == pre.queue_chunk@.drop_last(),
            post.chunks@.contains_key(pre.key_of(pre.queue_chunk@.last())),
            post.chunks@ == pre.chunks@.insert(
                pre.key_of(pre.queue_chunk@.last()),
                post.chunks@[pre.key_of(pre.queue_chunk@.last())],
            ),
            post.queue_sfp@ == pre.queue_sfp@ + spec_wake(
                pre.chunk_size,
                post.chunks@.dom(),
                pre.operation_pending@,
                pre.queue_chunk@.last(),
                IDirection::spec_negative_dirs(),
                8,
            ).0.push(pre.queue_chunk@.last()),
            post.operation_pending@ == spec_wake(
                pre.chunk_size,
                post.chunks@.dom(),
                pre.operation_pending@,
                pre.queue_chunk@.last(),
                IDirection::spec_negative_dirs(),
                8,
            ).1,
        ensures
            post.queues_ok(),
    {
        let c = pre.queue_chunk@.last();
        let dirs = IDirection::spec_negative_dirs();
        let woken = spec_wake(
            pre.chunk_size,
            post.chunks@.dom(),
            pre.operation_pending@,
            c,
            dirs,
            8,
        );
        let w = woken.0;
        lemma_wake(pre.chunk_size, post.chunks@.dom(), pre.operation_pending@, c, dirs, 8);
        lemma_drop_last_contains(pre.queue_chunk@, c);
        assert(pre.waits(c));
        assert(pre.operation_pending@.contains(pre.key_of(c)));
        Self::lemma_moved(pre, post, c, w, 0);
        assert forall|x: IVec3| #[trigger] post.waits(x) implies chunk_addressable(
            x,
            post.chunk_degree,
        ) by {
            if w.contains(x) {
                let j = choose|j: int| 0 <= j < 8 && x == #[trigger] c.spec_plus(dirs[j]);
                post.lemma_woken_addressable(c, dirs[j], post.key_of(x));
            } else {
                assert(pre.waits(x));
            }
        }
        assert forall|k: SeaHashKey|
            post.operation_pending@.contains(k) <==> exists|x: IVec3| #[trigger]
                post.waits(x) && post.key_of(x) == k by {
            lemma_wake_pending(
                pre.chunk_size,
                post.chunks@.dom(),
                pre.operation_pending@,
                c,
                dirs,
                8,
                k,
            );
            if pre.operation_pending@.contains(k) {
                let x = choose|x: IVec3| #[trigger] pre.waits(x) && pre.key_of(x) == k;
                assert(post.waits(x));
            }
            if key_among(pre.chunk_size, w, k) {
                let x = choose|x: IVec3| w.contains(x) && #[trigger] spec_chunk_key(pre.chunk_size, x) == k;
                assert(post.waits(x));
            }
            if exists|x: IVec3| #[trigger] post.waits(x) && post.key_of(x) == k {
                let x = choose|x: IVec3| #[trigger] post.waits(x) && post.key_of(x) == k;
                if w.contains(x) {
                    assert(spec_chunk_key(pre.chunk_size, x) == k);
                    assert(key_among(pre.chunk_size, w, k));
                } else {
                    assert(pre.waits(x));
                }
            }
        }
        assert forall|x: IVec3| post.queue_chunk@.contains(x) implies !post.chunks@.contains_key(
            #[trigger] post.key_of(x),
        ) by {
            lemma_drop_last_contains(pre.queue_chunk@, x);
            assert(pre.waits(x));
            assert(!pre.chunks@.contains_key(pre.key_of(x)));
            pre.lemma_keys_differ(x, c);
        }
        assert forall|x: IVec3| post.queue_sfp@.contains(x) implies post.chunks@.contains_key(
            #[trigger] post.key_of(x),
        ) by {
            if pre.queue_sfp@.contains(x) {
                assert(pre.chunks@.contains_key(pre.key_of(x)));
            }
        }
        assert forall|x: IVec3| post.queue_mesh@.contains(x) implies post.surface_maps@.contains_key(
            #[trigger] post.key_of(x),
        ) by {
            assert(pre.surface_maps@.contains_key(pre.key_of(x)));
        }
    }

    /// What waits after a chunk `c` has moved from the end of one queue to
    /// the end of the next, behind the woken chunks `w`: `from` is 0 for a
    /// move from the first to the second queue, 1 for a move from the second
    /// to the third.
    proof fn lemma_moved(pre: &ChunkManager, post: &ChunkManager, c: IVec3, w: Seq<IVec3>, from: int)
        requires
            pre.queues_ok(),
            w.no_duplicates(),
            forall|x: IVec3| #[trigger]
                w.contains(x) ==> !pre.operation_pending@.contains(pre.key_of(x)),
            from == 0 ==> pre.queue_chunk@.len() > 0 && c == pre.queue_chunk@.last()
                && post.queue_chunk@ == pre.queue_chunk@.drop_last() && post.queue_sfp@
                == pre.queue_sfp@ + w.push(c) && post.queue_mesh@ == pre.queue_mesh@,
            from != 0 ==> pre.queue_sfp@.len() > 0 && c == pre.queue_sfp@.last()
                && post.queue_sfp@ == pre.queue_sfp@.drop_last() && post.queue_mesh@
                == pre.queue_mesh@ + w.push(c) && post.queue_chunk@ == pre.queue_chunk@,
        ensures
            post.queue_chunk@.no_duplicates(),
            post.queue_sfp@.no_duplicates(),
            post.queue_mesh@.no_duplicates(),
            forall|x: IVec3| !(post.queue_chunk@.contains(x) && post.queue_sfp@.contains(x)),
            forall|x: IVec3| !(post.queue_chunk@.contains(x) && post.queue_mesh@.contains(x)),
            forall|x: IVec3| !(post.queue_sfp@.contains(x) && post.queue_mesh@.contains(x)),
            forall|x: IVec3| #[trigger] post.waits(x) <==> pre.waits(x) || w.contains(x),
            forall|x: IVec3|
                (from == 0 ==> (#[trigger] post.queue_sfp@.contains(x) <==> pre.queue_sfp@.contains(x)
                    || w.contains(x) || x == c)),
            forall|x: IVec3|
                (from != 0 ==> (#[trigger] post.queue_mesh@.contains(x) <==> pre.queue_mesh@.contains(
                    x,
                ) || w.contains(x) || x == c)),
            !w.contains(c),
    {
        let source = if from == 0 {
            pre.queue_chunk@
        } else {
            pre.queue_sfp@
        };
        let target = if from == 0 {
            pre.queue_sfp@
        } else {
            pre.queue_mesh@
        };
        lemma_drop_last_contains(source, c);
        assert(pre.waits(c));
        assert(pre.operation_pending@.contains(pre.key_of(c)));
        assert(!w.contains(c));
        assert forall|x: IVec3| w.contains(x) implies !pre.waits(x) by {
            if pre.waits(x) {
                assert(pre.operation_pending@.contains(pre.key_of(x)));
            }
        }
        lemma_push_distinct(w, c);
        assert forall|x: IVec3| !(target.contains(x) && w.push(c).contains(x)) by {
            lemma_push_contains(w, c, x);
            if target.contains(x) && w.contains(x) {
                assert(pre.waits(x));
            }
        }
        crate::seqs::lemma_concat_distinct(target, w.push(c));
        assert forall|x: IVec3|
            (target + w.push(c)).contains(x) <==> target.contains(x) || w.contains(x) || x == c by {
            lemma_concat_contains(target, w.push(c), x);
            lemma_push_contains(w, c, x);
        }
        assert forall|x: IVec3|
            source.drop_last().contains(x) <==> source.contains(x) && x != c by {
            lemma_drop_last_contains(source, x);
        }
        assert forall|x: IVec3| #[trigger] post.waits(x) <==> pre.waits(x) || w.contains(x) by {
            assert((target + w.push(c)).contains(x) <==> target.contains(x) || w.contains(x) || x
                == c);
            assert(source.drop_last().contains(x) <==> source.contains(x) && x != c);
        }
        assert forall|x: IVec3| !(post.queue_chunk@.contains(x) && post.queue_sfp@.contains(x)) by {
            assert((target + w.push(c)).contains(x) <==> target.contains(x) || w.contains(x) || x
                == c);
            assert(source.drop_last().contains(x) <==> source.contains(x) && x != c);
            if w.contains(x) {
                assert(!pre.waits(x));
            }
        }
        assert forall|x: IVec3| !(post.queue_chunk@.contains(x) && post.queue_mesh@.contains(x)) by {
            assert((target + w.push(c)).contains(x) <==> target.contains(x) || w.contains(x) || x
                == c);
            assert(source.drop_last().contains(x) <==> source.contains(x) && x != c);
            if w.contains(x) {
                assert(!pre.waits(x));
            }
        }
        assert forall|x: IVec3| !(post.queue_sfp@.contains(x) && post.queue_mesh@.contains(x)) by {
            assert((target + w.push(c)).contains(x) <==> target.contains(x) || w.contains(x) || x
                == c);
            assert(source.drop_last().contains(x) <==> source.contains(x) && x != c);
            if w.contains(x) {
                assert(!pre.waits(x));
            }
        }
    }

    /// Advances the chunk at the end of the first queue through the first stage.
    pub fn advance_chunk<F: Fn(IVec3) -> u8>(&mut self, df: &F)
        requires
            old(self).wf(),
            old(self).queue_chunk@.len() > 0,
            forall|p: IVec3| call_requires(df, (p,)),
        ensures
            final(self).wf(),
            Self::chunk_stage(old(self), final(self), df),
    {
        let ghost pre = *self;
        let c = self.queue_chunk.pop().unwrap();
        proof {
            lemma_drop_last_contains(pre.queue_chunk@, c);
            assert(pre.waits(c));
        }
        self.create_chunk(c, df);
        let dirs = IDirection::negative_dirs();
        proof {
            assert forall|i: int| 0 <= i < 8 implies c.can_plus(#[trigger] dirs@[i]) && chunk_keyable(
                self.chunk_size,
                c.spec_plus(dirs@[i]),
            ) by {
                self.lemma_keyable(c, dirs@[i]);
            }
        }
        wake_neighbors(
            &self.chunks,
            &mut self.operation_pending,
            &mut self.queue_sfp,
            c,
            &dirs,
            self.chunk_size,
        );
        let ghost woken = spec_wake(
            pre.chunk_size,
            self.chunks@.dom(),
            pre.operation_pending@,
            c,
            dirs@,
            8,
        );
        self.queue_sfp.push(c);
        proof {
            assert(self.queue_sfp@ =~= pre.queue_sfp@ + woken.0.push(c));
            Self::lemma_chunk_stage(&pre, self);
            Self::lemma_settled_chunk(&pre, self);
        }
    }

    /// After the second stage the queues are in order.
    proof fn lemma_sfp_stage(pre: &ChunkManager, post: &ChunkManager)
        requires
            pre.wf(),
            pre.queue_sfp@.len() > 0,
            post.tables_ok(),
            post.same_config(pre),
            post.chunks == pre.chunks,
            post.queue_chunk == pre.queue_chunk,
            post.queue_sfp@ == pre.queue_sfp@.drop_last(),
            post.surface_maps@.contains_key(pre.key_of(pre.queue_sfp@.last())),
            post.surface_maps@ == pre.surface_maps@.insert(
                pre.key_of(pre.queue_sfp@.last()),
                post.surface_maps@[pre.key_of(pre.queue_sfp@.last())],
            ),
            post.queue_mesh@ == pre.queue_mesh@ + spec_wake(
                pre.chunk_size,
                post.surface_maps@.dom(),
                pre.operation_pending@,
                pre.queue_sfp@.last(),
                IDirection::spec_positive_dirs(),
                8,
            ).0.push(pre.queue_sfp@.last()),
            post.operation_pending@ == spec_wake(
                pre.chunk_size,
                post.surface_maps@.dom(),
                pre.operation_pending@,
                pre.queue_sfp@.last(),
                IDirection::spec_positive_dirs(),
                8,
            ).1,
        ensures
            post.queues_ok(),
    {
        let c = pre.queue_sfp@.last();
        let dirs = IDirection::spec_positive_dirs();
        let woken = spec_wake(
            pre.chunk_size,
            post.surface_maps@.dom(),
            pre.operation_pending@,
            c,
            dirs,
            8,
        );
        let w = woken.0;
        lemma_wake(pre.chunk_size, post.surface_maps@.dom(), pre.operation_pending@, c, dirs, 8);
        lemma_drop_last_contains(pre.queue_sfp@, c);
        assert(pre.waits(c));
        assert(pre.operation_pending@.contains(pre.key_of(c)));
        Self::lemma_moved(pre, post, c, w, 1);
        assert forall|x: IVec3| #[trigger] post.waits(x) implies chunk_addressable(
            x,
            post.chunk_degree,
        ) by {
            if w.contains(x) {
                let j = choose|j: int| 0 <= j < 8 && x == #[trigger] c.spec_plus(dirs[j]);
                assert(post.surface_maps@.contains_key(post.key_of(x)));
                assert(post.chunks@.contains_key(post.key_of(x)));
                post.lemma_woken_addressable(c, dirs[j], post.key_of(x));
            } else {
                assert(pre.waits(x));
            }
        }
        assert forall|k: SeaHashKey|
            post.operation_pending@.contains(k) <==> exists|x: IVec3| #[trigger]
                post.waits(x) && post.key_of(x) == k by {
            lemma_wake_pending(
                pre.chunk_size,
                post.surface_maps@.dom(),
                pre.operation_pending@,
                c,
                dirs,
                8,
                k,
            );
            if pre.operation_pending@.contains(k) {
                let x = choose|x: IVec3| #[trigger] pre.waits(x) && pre.key_of(x) == k;
                assert(post.waits(x));
            }
            if key_among(pre.chunk_size, w, k) {
                let x = choose|x: IVec3| w.contains(x) && #[trigger] spec_chunk_key(pre.chunk_size, x) == k;
                assert(post.waits(x));
            }
            if exists|x: IVec3| #[trigger] post.waits(x) && post.key_of(x) == k {
                let x = choose|x: IVec3| #[trigger] post.waits(x) && post.key_of(x) == k;
                if w.contains(x) {
                    assert(spec_chunk_key(pre.chunk_size, x) == k);
                    assert(key_among(pre.chunk_size, w, k));
                } else {
                    assert(pre.waits(x));
                }
            }
        }
        assert forall|x: IVec3| post.queue_chunk@.contains(x) implies !post.chunks@.contains_key(
            #[trigger] post.key_of(x),
        ) by {
            assert(!pre.chunks@.contains_key(pre.key_of(x)));
        }
        assert forall|x: IVec3| post.queue_sfp@.contains(x) implies post.chunks@.contains_key(
            #[trigger] post.key_of(x),
        ) by {
            lemma_drop_last_contains(pre.queue_sfp@, x);
            assert(pre.chunks@.contains_key(pre.key_of(x)));
        }
        assert forall|x: IVec3| post.queue_mesh@.contains(x) implies post.surface_maps@.contains_key(
            #[trigger] post.key_of(x),
        ) by {
            if pre.queue_mesh@.contains(x) {
                assert(pre.surface_maps@.contains_key(pre.key_of(x)));
            }
        }
    }

    /// Advances the chunk at the end of the second queue through the second stage.
    pub fn advance_sfp(&mut self)
        requires
            old(self).wf(),
            old(self).queue_sfp@.len() > 0,
        ensures
            final(self).wf(),
            Self::sfp_stage(old(self), final(self)),
    {
        let ghost pre = *self;
        let c = self.queue_sfp.pop().unwrap();
        proof {
            lemma_drop_last_contains(pre.queue_sfp@, c);
            assert(pre.waits(c));
            assert(pre.chunks@.contains_key(pre.key_of(c)));
        }
        let ghost popped = *self;
        self.create_surface_map(c);
        proof {
            popped.lemma_neighbor_chunks_frame(&pre, c, IDirection::spec_positive_dirs());
        }
        let dirs = IDirection::positive_dirs();
        proof {
            assert forall|i: int| 0 <= i < 8 implies c.can_plus(#[trigger] dirs@[i]) && chunk_keyable(
                self.chunk_size,
                c.spec_plus(dirs@[i]),
            ) by {
                self.lemma_keyable(c, dirs@[i]);
            }
        }
        wake_neighbors(
            &self.surface_maps,
            &mut self.operation_pending,
            &mut self.queue_mesh,
            c,
            &dirs,
            self.chunk_size,
        );
        let ghost woken = spec_wake(
            pre.chunk_size,
            self.surface_maps@.dom(),
            pre.operation_pending@,
            c,
            dirs@,
            8,
        );
        self.queue_mesh.push(c);
        proof {
            assert(self.queue_mesh@ =~= pre.queue_mesh@ + woken.0.push(c));
            Self::lemma_sfp_stage(&pre, self);
            Self::lemma_settled_sfp(&pre, self);
        }
    }

    /// After the third stage the queues are in order.
    proof fn lemma_mesh_stage(pre: &ChunkManager, post: &ChunkManager)
        requires
            pre.wf(),
            pre.queue_mesh@.len() > 0,
            post.same_config(pre),
            post.chunks == pre.chunks,
            post.surface_maps == pre.surface_maps,
            post.queue_chunk == pre.queue_chunk,
            post.queue_sfp == pre.queue_sfp,
            post.queue_mesh@ == pre.queue_mesh@.drop_last(),
            post.operation_pending@ == pre.operation_pending@.remove(
                pre.key_of(pre.queue_mesh@.last()),
            ),
        ensures
            post.queues_ok(),
    {
        let c = pre.queue_mesh@.last();
        lemma_drop_last_contains(pre.queue_mesh@, c);
        assert(pre.waits(c));
        assert forall|x: IVec3| #[trigger] post.waits(x) <==> pre.waits(x) && x != c by {
            lemma_drop_last_contains(pre.queue_mesh@, x);
        }
        assert forall|x: IVec3| #[trigger] post.waits(x) implies chunk_addressable(
            x,
            post.chunk_degree,
        ) by {
            assert(pre.waits(x));
        }
        assert forall|k: SeaHashKey|
            post.operation_pending@.contains(k) <==> exists|x: IVec3| #[trigger]
                post.waits(x) && post.key_of(x) == k by {
            if post.operation_pending@.contains(k) {
                let x = choose|x: IVec3| #[trigger] pre.waits(x) && pre.key_of(x) == k;
                assert(post.waits(x));
            }
            if exists|x: IVec3| #[trigger] post.waits(x) && post.key_of(x) == k {
                let x = choose|x: IVec3| #[trigger] post.waits(x) && post.key_of(x) == k;
                assert(pre.waits(x));
                pre.lemma_keys_differ(x, c);
            }
        }
        assert forall|x: IVec3| post.queue_chunk@.contains(x) implies !post.chunks@.contains_key(
            #[trigger] post.key_of(x),
        ) by {
            assert(!pre.chunks@.contains_key(pre.key_of(x)));
        }
        assert forall|x: IVec3| post.queue_sfp@.contains(x) implies post.chunks@.contains_key(
            #[trigger] post.key_of(x),
        ) by {
            assert(pre.chunks@.contains_key(pre.key_of(x)));
        }
        assert forall|x: IVec3| post.queue_mesh@.contains(x) implies post.surface_maps@.contains_key(
            #[trigger] post.key_of(x),
        ) by {
            lemma_drop_last_contains(pre.queue_mesh@, x);
            assert(pre.surface_maps@.contains_key(pre.key_of(x)));
        }
        assert forall|x: IVec3| !(post.queue_chunk@.contains(x) && post.queue_mesh@.contains(x)) by {
            lemma_drop_last_contains(pre.queue_mesh@, x);
        }
        assert forall|x: IVec3| !(post.queue_sfp@.contains(x) && post.queue_mesh@.contains(x)) by {
            lemma_drop_last_contains(pre.queue_mesh@, x);
        }
    }

    /// Advances the chunk at the end of the third queue through the third stage.
    pub fn advance_mesh(&mut self)
        requires
            old(self).wf(),
            old(self).queue_mesh@.len() > 0,
        ensures
            final(self).wf(),
            Self::mesh_stage(old(self), final(self)),
    {
        let ghost pre = *self;
        let c = self.queue_mesh.pop().unwrap();
        proof {
            lemma_drop_last_contains(pre.queue_mesh@, c);
            assert(pre.waits(c));
            assert(pre.surface_maps@.contains_key(pre.key_of(c)));
            pre.lemma_keyable(c, IVec3 { x: 0, y: 0, z: 0 });
        }
        let ghost popped = *self;
        self.create_mesh(c);
        proof {
            popped.lemma_mesh_frame(
                &pre,
                c,
                (pre.chunk_size * pre.chunk_size * pre.chunk_size) as nat,
            );
        }
        let key = self.chunk_coord2key(c);
        self.operation_pending.remove(&key);
        self.chunk_updated.insert(key);
        proof {
            Self::lemma_mesh_stage(&pre, self);
            Self::lemma_settled_kept(&pre, self);
        }
    }
}

/// A number of 33 bits times the size of a chunk fits 64 bits.
proof fn lemma_scaled_range(v: int, size: int)
    by (nonlinear_arith)
    requires
        -0x1_0000_0000 <= v <= 0x1_0000_0000,
        1 <= size <= 1024,
    ensures
        -0x400_0000_0000 <= v * size <= 0x400_0000_0000,
{
}

/// An axis of a chunk between two addressable chunks is addressable.
proof fn lemma_axis_between(lo: int, c: int, hi: int, size: int)
    by (nonlinear_arith)
    requires
        size > 0,
        lo <= c <= hi,
        fits_i32((lo - 2) * size),
        fits_i32((hi + 2) * size),
    ensures
        fits_i32((c - 2) * size),
        fits_i32((c + 2) * size),
{
}

impl ChunkManager {
    /// The chunk at `c` is neither stored nor pending.
    pub open spec fn missing(&self, c: IVec3) -> bool {
        !self.operation_pending@.contains(self.key_of(c)) && !self.chunks@.contains_key(
            self.key_of(c),
        )
    }

    /// The distance up to which chunks are generated, or zero where it is negative.
    pub open spec fn spec_reach(&self) -> int {
        if self.gen_dist > 0 {
            self.gen_dist as int
        } else {
            0
        }
    }

    /// Every chunk within the generation distance of `cur`, and each chunk
    /// next to one, has voxels whose positions fit 32 bits.
    pub open spec fn in_reach(&self, cur: IVec3) -> bool {
        let g = self.spec_reach();
        &&& fits_i32(cur.x - g) && fits_i32(cur.x + g)
        &&& fits_i32(cur.y - g) && fits_i32(cur.y + g)
        &&& fits_i32(cur.z - g) && fits_i32(cur.z + g)
        &&& chunk_addressable(
            IVec3 { x: (cur.x - g) as i32, y: (cur.y - g) as i32, z: (cur.z - g) as i32 },
            self.chunk_degree,
        )
        &&& chunk_addressable(
            IVec3 { x: (cur.x + g) as i32, y: (cur.y + g) as i32, z: (cur.z + g) as i32 },
            self.chunk_degree,
        )
    }

    /// A chunk within the generation distance of a centre in reach is addressable.
    pub proof fn lemma_in_reach(&self, cur: IVec3, c: IVec3)
        requires
            self.config_ok(),
            self.in_reach(cur),
            spec_shell(cur, c) <= self.spec_reach(),
        ensures
            chunk_addressable(c, self.chunk_degree),
    {
        reveal(chunk_addressable);
        let g = self.spec_reach();
        let size = spec_chunk_size(self.chunk_degree);
        vstd::arithmetic::power2::lemma_pow2_pos(self.chunk_degree as nat);
        lemma_axis_between(cur.x - g, c.x as int, cur.x + g, size);
        lemma_axis_between(cur.y - g, c.y as int, cur.y + g, size);
        lemma_axis_between(cur.z - g, c.z as int, cur.z + g, size);
    }

    /// Whether one of the listed chunks is neither stored nor pending.
    fn any_missing(&self, coords: &Vec<IVec3>) -> (found: bool)
        requires
            self.config_ok(),
            forall|i: int|
                0 <= i < coords@.len() ==> chunk_addressable(
                    #[trigger] coords@[i],
                    self.chunk_degree,
                ),
        ensures
            found == exists|i: int| 0 <= i < coords@.len() && self.missing(#[trigger] coords@[i]),
    {
        let mut i: usize = 0;
        while i < coords.len()
            invariant
                i <= coords@.len(),
                self.config_ok(),
                forall|i: int|
                    0 <= i < coords@.len() ==> chunk_addressable(
                        #[trigger] coords@[i],
                        self.chunk_degree,
                    ),
                forall|j: int| 0 <= j < i ==> !self.missing(#[trigger] coords@[j]),
            decreases coords@.len() - i,
        {
            proof {
                self.lemma_keyable(coords@[i as int], IVec3 { x: 0, y: 0, z: 0 });
            }
            let key = self.chunk_coord2key(coords[i]);
            if !self.operation_pending.contains(&key) && !self.chunks.contains_key(&key) {
                return true;
            }
            i += 1;
        }
        false
    }

    /// The scan of a frame, from `pre` to `post`: where a chunk within the
    /// view distance of `cur` is neither stored nor pending, every such
    /// chunk within the generation distance is put at the end of the first
    /// queue, nearest first, and is pending from then on.
    #[verifier::opaque]
    pub open spec fn scanned(pre: &ChunkManager, post: &ChunkManager, cur: IVec3) -> bool {
        let triggered = exists|c: IVec3| spec_shell(cur, c) <= pre.view_dist && #[trigger] pre.missing(c);
        let from = pre.queue_chunk@.len() as int;
        let added = post.queue_chunk@.subrange(from, post.queue_chunk@.len() as int);
        &&& post.same_config(pre)
        &&& post.chunks == pre.chunks
        &&& post.surface_maps == pre.surface_maps
        &&& post.meshes == pre.meshes
        &&& post.queue_sfp == pre.queue_sfp
        &&& post.queue_mesh == pre.queue_mesh
        &&& post.chunk_updated == pre.chunk_updated
        &&& !triggered ==> post.queue_chunk == pre.queue_chunk && post.operation_pending
            == pre.operation_pending
        &&& triggered ==> {
            &&& from <= post.queue_chunk@.len()
            &&& post.queue_chunk@.subrange(0, from) == pre.queue_chunk@
            &&& visit_ordered(cur, added)
            &&& forall|c: IVec3|
                #![trigger added.contains(c)]
                #![trigger pre.missing(c)]
                added.contains(c) <==> spec_shell(cur, c) <= pre.gen_dist && pre.missing(c)
            &&& forall|k: SeaHashKey|
                post.operation_pending@.contains(k) <==> pre.operation_pending@.contains(k)
                    || key_among(pre.chunk_size, added, k)
        }
    }

    /// Whether a chunk within the view distance of `cur_chunk` is neither
    /// stored nor pending.
    fn view_has_missing(&self, cur_chunk: IVec3) -> (found: bool)
        requires
            self.config_ok(),
            self.in_reach(cur_chunk),
        ensures
            found == exists|c: IVec3|
                spec_shell(cur_chunk, c) <= self.view_dist && #[trigger] self.missing(c),
    {
        let coords = Self::nearby_coords(cur_chunk, self.view_dist);
        proof {
            assert forall|i: int| 0 <= i < coords@.len() implies chunk_addressable(
                #[trigger] coords@[i],
                self.chunk_degree,
            ) by {
                assert(coords@.contains(coords@[i]));
                self.lemma_in_reach(cur_chunk, coords@[i]);
            }
        }
        let found = self.any_missing(&coords);
        proof {
            if found {
                let i = choose|i: int| 0 <= i < coords@.len() && self.missing(#[trigger] coords@[i]);
                assert(coords@.contains(coords@[i]));
                assert(spec_shell(cur_chunk, coords@[i]) <= self.view_dist && self.missing(
                    coords@[i],
                ));
            }
            if exists|c: IVec3|
                spec_shell(cur_chunk, c) <= self.view_dist && #[trigger] self.missing(c) {
                let c = choose|c: IVec3|
                    spec_shell(cur_chunk, c) <= self.view_dist && #[trigger] self.missing(c);
                assert(coords@.contains(c));
                let i = choose|i: int| 0 <= i < coords@.len() && coords@[i] == c;
                assert(self.missing(coords@[i]));
            }
        }
        found
    }

    /// Puts every chunk within the generation distance of `cur_chunk` that
    /// is neither stored nor pending at the end of the first queue.
    fn queue_all_missing(&mut self, cur_chunk: IVec3) -> (added: Ghost<Seq<IVec3>>)
        requires
            old(self).config_ok(),
            old(self).in_reach(cur_chunk),
        ensures
            final(self).same_config(old(self)),
            final(self).chunks == old(self).chunks,
            final(self).surface_maps == old(self).surface_maps,
            final(self).meshes == old(self).meshes,
            final(self).queue_sfp == old(self).queue_sfp,
            final(self).queue_mesh == old(self).queue_mesh,
            final(self).chunk_updated == old(self).chunk_updated,
            final(self).queue_chunk@ == old(self).queue_chunk@ + added@,
            visit_ordered(cur_chunk, added@),
            forall|c: IVec3|
                #![trigger added@.contains(c)]
                #![trigger old(self).missing(c)]
                added@.contains(c) <==> (spec_shell(cur_chunk, c) <= old(self).gen_dist
                    && old(self).missing(c)),
            forall|k: SeaHashKey|
                final(self).operation_pending@.contains(k) <==> old(self).operation_pending@.contains(
                    k,
                ) || key_among(old(self).chunk_size, added@, k),
    {
        let ghost pre = *self;
        let coords = Self::nearby_coords(cur_chunk, self.gen_dist);
        let ghost mut added: Seq<IVec3> = Seq::empty();
        let mut i: usize = 0;
        proof {
            assert(self.queue_chunk@ =~= pre.queue_chunk@ + added);
            Self::lemma_visits_distinct(cur_chunk, coords@);
        }
        while i < coords.len()
            invariant
                i <= coords@.len(),
                pre.config_ok(),
                pre.in_reach(cur_chunk),
                coords@.no_duplicates(),
                forall|c: IVec3| coords@.contains(c) ==> spec_shell(cur_chunk, c) <= pre.gen_dist,
                self.same_config(&pre),
                self.chunks == pre.chunks,
                self.surface_maps == pre.surface_maps,
                self.meshes == pre.meshes,
                self.queue_sfp == pre.queue_sfp,
                self.queue_mesh == pre.queue_mesh,
                self.chunk_updated == pre.chunk_updated,
                self.queue_chunk@ == pre.queue_chunk@ + added,
                added == filter_missing(&pre, coords@, i as nat),
                forall|k: SeaHashKey|
                    self.operation_pending@.contains(k) <==> pre.operation_pending@.contains(k)
                        || key_among(pre.chunk_size, added, k),
            decreases coords@.len() - i,
        {
            let c = coords[i];
            proof {
                assert(coords@.contains(c));
                pre.lemma_in_reach(cur_chunk, c);
                pre.lemma_keyable(c, IVec3 { x: 0, y: 0, z: 0 });
                Self::lemma_not_among(&pre, cur_chunk, coords@, i as int);
            }
            let key = self.chunk_coord2key(c);
            if !self.operation_pending.contains(&key) && !self.chunks.contains_key(&key) {
                self.operation_pending.insert(key);
                self.queue_chunk.push(c);
                proof {
                    let after = added.push(c);
                    assert(self.queue_chunk@ =~= pre.queue_chunk@ + after);
                    assert forall|k: SeaHashKey|
                        self.operation_pending@.contains(k) <==> pre.operation_pending@.contains(k)
                            || key_among(pre.chunk_size, after, k) by {
                        lemma_key_among_push(pre.chunk_size, added, c, k);
                    }
                    added = after;
                }
            }
            i += 1;
        }
        proof {
            Self::lemma_filter_missing(&pre, cur_chunk, coords@, coords@.len());
            assert forall|c: IVec3|
                #![trigger added.contains(c)]
                #![trigger pre.missing(c)]
                added.contains(c) <==> spec_shell(cur_chunk, c) <= pre.gen_dist && pre.missing(
                    c,
                ) by {
                if spec_shell(cur_chunk, c) <= pre.gen_dist {
                    assert(coords@.contains(c));
                }
                if added.contains(c) {
                    assert(coords@.contains(c));
                }
            }
        }
        Ghost(added)
    }

    /// Queues the chunks that are missing around `cur_chunk`.
    pub fn enqueue_missing(&mut self, cur_chunk: IVec3)
        requires
            old(self).wf(),
            old(self).in_reach(cur_chunk),
        ensures
            final(self).wf(),
            Self::scanned(old(self), final(self), cur_chunk),
    {
        let ghost pre = *self;
        if self.view_has_missing(cur_chunk) {
            assert(exists|c: IVec3|
                spec_shell(cur_chunk, c) <= pre.view_dist && #[trigger] pre.missing(c));
            let added = self.queue_all_missing(cur_chunk);
            proof {
                Self::lemma_scan_done(&pre, self, cur_chunk, added@);
                Self::lemma_scan_added(&pre, cur_chunk, added@);
                Self::lemma_queued(&pre, self, added@);
                Self::lemma_settled_kept(&pre, self);
            }
        } else {
            proof {
                reveal(ChunkManager::scanned);
            }
        }
    }

    /// What the scan has done once the missing chunks are queued.
    proof fn lemma_scan_done(pre: &ChunkManager, post: &ChunkManager, cur: IVec3, added: Seq<IVec3>)
        requires
            exists|c: IVec3| spec_shell(cur, c) <= pre.view_dist && #[trigger] pre.missing(c),
            post.same_config(pre),
            post.chunks == pre.chunks,
            post.surface_maps == pre.surface_maps,
            post.meshes == pre.meshes,
            post.queue_sfp == pre.queue_sfp,
            post.queue_mesh == pre.queue_mesh,
            post.chunk_updated == pre.chunk_updated,
            post.queue_chunk@ == pre.queue_chunk@ + added,
            visit_ordered(cur, added),
            forall|c: IVec3|
                #![trigger added.contains(c)]
                #![trigger pre.missing(c)]
                added.contains(c) <==> spec_shell(cur, c) <= pre.gen_dist && pre.missing(c),
            forall|k: SeaHashKey|
                post.operation_pending@.contains(k) <==> pre.operation_pending@.contains(k)
                    || key_among(pre.chunk_size, added, k),
        ensures
            Self::scanned(pre, post, cur),
    {
        reveal(ChunkManager::scanned);
        let from = pre.queue_chunk@.len() as int;
        assert(post.queue_chunk@.subrange(0, from) =~= pre.queue_chunk@);
        assert(post.queue_chunk@.subrange(from, post.queue_chunk@.len() as int) =~= added);
    }

    /// The chunks that the scan has queued are addressable and were missing.
    proof fn lemma_scan_added(pre: &ChunkManager, cur: IVec3, added: Seq<IVec3>)
        requires
            pre.config_ok(),
            pre.in_reach(cur),
            visit_ordered(cur, added),
            forall|c: IVec3|
                #![trigger added.contains(c)]
                #![trigger pre.missing(c)]
                added.contains(c) <==> spec_shell(cur, c) <= pre.gen_dist && pre.missing(c),
        ensures
            added.no_duplicates(),
            forall|x: IVec3|
                added.contains(x) ==> pre.missing(x) && chunk_addressable(x, pre.chunk_degree),
    {
        assert forall|x: IVec3| added.contains(x) implies pre.missing(x) && chunk_addressable(
            x,
            pre.chunk_degree,
        ) by {
            assert(spec_shell(cur, x) <= pre.gen_dist && pre.missing(x));
            pre.lemma_in_reach(cur, x);
        }
        Self::lemma_visits_distinct(cur, added);
    }

    /// After chunks that were neither stored nor pending have been put at
    /// the end of the first queue the queues are in order.
    proof fn lemma_queued(pre: &ChunkManager, post: &ChunkManager, added: Seq<IVec3>)
        requires
            pre.wf(),
            post.same_config(pre),
            post.chunks == pre.chunks,
            post.surface_maps == pre.surface_maps,
            post.queue_sfp == pre.queue_sfp,
            post.queue_mesh == pre.queue_mesh,
            post.queue_chunk@ == pre.queue_chunk@ + added,
            added.no_duplicates(),
            forall|x: IVec3|
                added.contains(x) ==> pre.missing(x) && chunk_addressable(x, pre.chunk_degree),
            forall|k: SeaHashKey|
                post.operation_pending@.contains(k) <==> pre.operation_pending@.contains(k)
                    || key_among(pre.chunk_size, added, k),
        ensures
            post.queues_ok(),
    {
        let qc = pre.queue_chunk@;
        assert forall|x: IVec3| added.contains(x) implies !pre.waits(x) by {
            if pre.waits(x) {
                assert(pre.operation_pending@.contains(pre.key_of(x)));
            }
        }
        crate::seqs::lemma_concat_distinct(qc, added);
        assert forall|x: IVec3| post.queue_chunk@.contains(x) <==> qc.contains(x) || added.contains(x) by {
            lemma_concat_contains(qc, added, x);
        }
        assert forall|x: IVec3| #[trigger] post.waits(x) <==> pre.waits(x) || added.contains(x) by {
            lemma_concat_contains(qc, added, x);
        }
        assert forall|x: IVec3| #[trigger] post.waits(x) implies chunk_addressable(
            x,
            post.chunk_degree,
        ) by {
            if !added.contains(x) {
                assert(pre.waits(x));
            }
        }
        assert forall|k: SeaHashKey|
            post.operation_pending@.contains(k) <==> exists|x: IVec3| #[trigger]
                post.waits(x) && post.key_of(x) == k by {
            if pre.operation_pending@.contains(k) {
                let x = choose|x: IVec3| #[trigger] pre.waits(x) && pre.key_of(x) == k;
                assert(post.waits(x));
            }
            if key_among(pre.chunk_size, added, k) {
                let x = choose|x: IVec3| added.contains(x) && #[trigger] spec_chunk_key(pre.chunk_size, x) == k;
                assert(post.waits(x));
            }
            if exists|x: IVec3| #[trigger] post.waits(x) && post.key_of(x) == k {
                let x = choose|x: IVec3| #[trigger] post.waits(x) && post.key_of(x) == k;
                if added.contains(x) {
                    assert(spec_chunk_key(pre.chunk_size, x) == k);
                    assert(key_among(pre.chunk_size, added, k));
                } else {
                    assert(pre.waits(x));
                }
            }
        }
        assert forall|x: IVec3| post.queue_chunk@.contains(x) implies !post.chunks@.contains_key(
            #[trigger] post.key_of(x),
        ) by {
            if qc.contains(x) {
                assert(!pre.chunks@.contains_key(pre.key_of(x)));
            }
        }
        assert forall|x: IVec3| post.queue_sfp@.contains(x) implies post.chunks@.contains_key(
            #[trigger] post.key_of(x),
        ) by {
            assert(pre.chunks@.contains_key(pre.key_of(x)));
        }
        assert forall|x: IVec3| post.queue_mesh@.contains(x) implies post.surface_maps@.contains_key(
            #[trigger] post.key_of(x),
        ) by {
            assert(pre.surface_maps@.contains_key(pre.key_of(x)));
        }
        assert forall|x: IVec3| !(post.queue_chunk@.contains(x) && post.queue_sfp@.contains(x)) by {
            if added.contains(x) && pre.queue_sfp@.contains(x) {
                assert(pre.waits(x));
            }
        }
        assert forall|x: IVec3| !(post.queue_chunk@.contains(x) && post.queue_mesh@.contains(x)) by {
            if added.contains(x) && pre.queue_mesh@.contains(x) {
                assert(pre.waits(x));
            }
        }
    }

    /// The next chunk of the visit has a key that none of the chunks queued
    /// so far has.
    proof fn lemma_not_among(pre: &ChunkManager, cur: IVec3, coords: Seq<IVec3>, i: int)
        requires
            pre.config_ok(),
            pre.in_reach(cur),
            coords.no_duplicates(),
            forall|c: IVec3| coords.contains(c) ==> spec_shell(cur, c) <= pre.gen_dist,
            0 <= i < coords.len(),
        ensures
            !key_among(pre.chunk_size, filter_missing(pre, coords, i as nat), pre.key_of(coords[i])),
    {
        let added = filter_missing(pre, coords, i as nat);
        let c = coords[i];
        if key_among(pre.chunk_size, added, pre.key_of(c)) {
            let x = choose|x: IVec3|
                added.contains(x) && #[trigger] spec_chunk_key(pre.chunk_size, x) == pre.key_of(c);
            lemma_filtered(pre, coords, i as nat, x);
            let j = choose|j: int| 0 <= j < i && coords[j] == x;
            assert(coords.contains(x));
            assert(coords.contains(c));
            pre.lemma_in_reach(cur, x);
            pre.lemma_in_reach(cur, c);
            pre.lemma_keys_differ(x, c);
        }
    }

    /// The chunks queued by a scan are the missing ones of the visit, in its order.
    proof fn lemma_filter_missing(pre: &ChunkManager, cur: IVec3, coords: Seq<IVec3>, n: nat)
        requires
            visit_ordered(cur, coords),
            n <= coords.len(),
        ensures
            visit_ordered(cur, filter_missing(pre, coords, n)),
            filter_missing(pre, coords, n).no_duplicates(),
            forall|x: IVec3|
                filter_missing(pre, coords, n).contains(x) <==> pre.missing(x) && exists|j: int|
                    0 <= j < n && coords[j] == x,
            forall|x: IVec3| #[trigger]
                filter_missing(pre, coords, n).contains(x) ==> pre.missing(x) && coords.contains(x),
            n == coords.len() ==> forall|x: IVec3|
                pre.missing(x) && coords.contains(x) ==> filter_missing(pre, coords, n).contains(x),
        decreases n,
    {
        let list = filter_missing(pre, coords, n);
        assert forall|x: IVec3|
            list.contains(x) <==> pre.missing(x) && exists|j: int| 0 <= j < n && coords[j] == x by {
            lemma_filtered(pre, coords, n, x);
        }
        if n > 0 {
            let p = (n - 1) as nat;
            let before = filter_missing(pre, coords, p);
            Self::lemma_filter_missing(pre, cur, coords, p);
            let c = coords[n - 1];
            if pre.missing(c) {
                assert forall|a: int, b: int| 0 <= a < b < list.len() implies spec_visit_rank(
                    cur,
                    #[trigger] list[a],
                ) < spec_visit_rank(cur, #[trigger] list[b]) by {
                    if b < before.len() {
                        assert(list[a] == before[a] && list[b] == before[b]);
                    } else {
                        assert(before.contains(before[a]));
                        lemma_filtered(pre, coords, p, before[a]);
                        let j = choose|j: int| 0 <= j < p && coords[j] == before[a];
                        assert(spec_visit_rank(cur, coords[j]) < spec_visit_rank(cur, coords[n - 1]));
                    }
                }
            }
        }
        Self::lemma_visits_distinct(cur, list);
    }
}

/// The first `n` chunks of a visit that are neither stored nor pending.
pub open spec fn filter_missing(pre: &ChunkManager, coords: Seq<IVec3>, n: nat) -> Seq<IVec3>
    decreases n,
{
    if n == 0 {
        Seq::empty()
    } else {
        let before = filter_missing(pre, coords, (n - 1) as nat);
        if pre.missing(coords[n - 1]) {
            before.push(coords[n - 1])
        } else {
            before
        }
    }
}

/// What the filtered list holds.
proof fn lemma_filtered(pre: &ChunkManager, coords: Seq<IVec3>, n: nat, x: IVec3)
    requires
        n <= coords.len(),
    ensures
        filter_missing(pre, coords, n).contains(x) <==> pre.missing(x) && exists|j: int|
            0 <= j < n && coords[j] == x,
    decreases n,
{
    if n > 0 {
        let p = (n - 1) as nat;
        let before = filter_missing(pre, coords, p);
        lemma_filtered(pre, coords, p, x);
        let c = coords[n - 1];
        if pre.missing(c) {
            lemma_push_contains(before, c, x);
        }
        if before.contains(x) {
            let j = choose|j: int| 0 <= j < p && coords[j] == x;
            assert(0 <= j < n && coords[j] == x);
        }
        if pre.missing(x) && exists|j: int| 0 <= j < n && coords[j] == x {
            let j = choose|j: int| 0 <= j < n && coords[j] == x;
            if j < p {
                assert(0 <= j < p && coords[j] == x);
            }
        }
    }
}

/// What keys a list holds after a push.
proof fn lemma_key_among_push(size: i32, list: Seq<IVec3>, c: IVec3, k: SeaHashKey)
    ensures
        key_among(size, list.push(c), k) <==> key_among(size, list, k) || spec_chunk_key(size, c)
            == k,
{
    let after = list.push(c);
    if key_among(size, list, k) {
        let x = choose|x: IVec3| list.contains(x) && #[trigger] spec_chunk_key(size, x) == k;
        lemma_push_contains(list, c, x);
        assert(after.contains(x) && spec_chunk_key(size, x) == k);
    }
    if spec_chunk_key(size, c) == k {
        lemma_push_contains(list, c, c);
        assert(after.contains(c) && spec_chunk_key(size, c) == k);
    }
    if key_among(size, after, k) {
        let x = choose|x: IVec3| after.contains(x) && #[trigger] spec_chunk_key(size, x) == k;
        lemma_push_contains(list, c, x);
        if x != c {
            assert(list.contains(x) && spec_chunk_key(size, x) == k);
        }
    }
}

impl ChunkManager {
    /// One operation, from `pre` to `post`: the first of the three stages
    /// that has a chunk waiting advances the chunk at the end of its queue;
    /// where no chunk waits nothing happens.
    #[verifier::opaque]
    pub open spec fn stepped<F: Fn(IVec3) -> u8>(
        pre: &ChunkManager,
        post: &ChunkManager,
        df: &F,
    ) -> bool {
        if pre.queue_chunk@.len() > 0 {
            Self::chunk_stage(pre, post, df)
        } else if pre.queue_sfp@.len() > 0 {
            Self::sfp_stage(pre, post)
        } else if pre.queue_mesh@.len() > 0 {
            Self::mesh_stage(pre, post)
        } else {
            *post == *pre
        }
    }

    /// Each state of the trace is in order, and follows from the one before
    /// it by one operation.
    pub open spec fn worked<F: Fn(IVec3) -> u8>(trace: Seq<ChunkManager>, df: &F) -> bool {
        &&& forall|i: int| 0 <= i < trace.len() ==> (#[trigger] trace[i]).wf()
        &&& forall|i: int|
            #![trigger trace[i]]
            0 <= i < trace.len() - 1 ==> Self::stepped(&trace[i], &trace[i + 1], df)
    }

    /// `post` is `pre` with an empty set of updated chunks.
    pub open spec fn cleared(pre: &ChunkManager, post: &ChunkManager) -> bool {
        &&& post.same_config(pre)
        &&& post.chunks == pre.chunks
        &&& post.surface_maps == pre.surface_maps
        &&& post.meshes == pre.meshes
        &&& post.queue_chunk == pre.queue_chunk
        &&& post.queue_sfp == pre.queue_sfp
        &&& post.queue_mesh == pre.queue_mesh
        &&& post.operation_pending == pre.operation_pending
        &&& post.chunk_updated@ == Set::<SeaHashKey>::empty()
    }

    /// The number of operations of a frame.
    pub open spec fn spec_budget(&self) -> nat {
        if self.operations_per_frame > 0 {
            self.operations_per_frame as nat
        } else {
            0
        }
    }

    /// The start of a frame, from `pre` to `post`: the scan around `cur`,
    /// and an empty set of updated chunks.
    pub open spec fn started(pre: &ChunkManager, post: &ChunkManager, cur: IVec3) -> bool {
        exists|a: ChunkManager| #[trigger] Self::scanned(pre, &a, cur) && Self::cleared(&a, post)
    }

    /// A frame, from `pre` to `post`, with the states that it passes
    /// through: the trace begins with the start of the frame, has one state
    /// more than the budget has operations, and ends with `post`.
    pub open spec fn framed_by<F: Fn(IVec3) -> u8>(
        pre: &ChunkManager,
        post: &ChunkManager,
        cur: IVec3,
        df: &F,
        trace: Seq<ChunkManager>,
    ) -> bool {
        &&& trace.len() == pre.spec_budget() + 1
        &&& Self::started(pre, &trace[0], cur)
        &&& Self::worked(trace, df)
        &&& trace.last() == *post
    }

    /// A frame, from `pre` to `post`: the scan around `cur`, an empty set of
    /// updated chunks, and then as many operations as the budget allows.
    pub open spec fn framed<F: Fn(IVec3) -> u8>(
        pre: &ChunkManager,
        post: &ChunkManager,
        cur: IVec3,
        df: &F,
    ) -> bool {
        exists|trace: Seq<ChunkManager>| #[trigger] Self::framed_by(pre, post, cur, df, trace)
    }

    /// The chunk with the key `k` is stored or pending.
    pub open spec fn covers(&self, k: SeaHashKey) -> bool {
        self.chunks@.contains_key(k) || self.operation_pending@.contains(k)
    }

    /// No chunk is lost from `pre` to `post`: what was stored or pending is
    /// so still, the stored chunks are the same, and a surface is stored
    /// for every key for which one was. A mesh may go: a chunk that is
    /// meshed again and has no triangle any more loses it.
    pub open spec fn grown_from(&self, pre: &ChunkManager) -> bool {
        &&& forall|k: SeaHashKey| #[trigger] pre.covers(k) ==> self.covers(k)
        &&& forall|k: SeaHashKey| #[trigger]
            pre.chunks@.contains_key(k) ==> self.chunks@.contains_key(k) && self.chunks@[k]
                == pre.chunks@[k]
        &&& forall|k: SeaHashKey| #[trigger]
            pre.surface_maps@.contains_key(k) ==> self.surface_maps@.contains_key(k)
    }

    /// Nothing waits, and every chunk within the view distance of `cur` is stored.
    pub open spec fn idle_at(&self, cur: IVec3) -> bool {
        &&& self.queue_chunk@.len() == 0
        &&& self.queue_sfp@.len() == 0
        &&& self.queue_mesh@.len() == 0
        &&& forall|c: IVec3|
            spec_shell(cur, c) <= self.view_dist ==> self.chunks@.contains_key(
                #[trigger] self.key_of(c),
            )
    }

    /// An operation loses nothing.
    proof fn lemma_step_grows<F: Fn(IVec3) -> u8>(pre: &ChunkManager, post: &ChunkManager, df: &F)
        requires
            pre.wf(),
            Self::stepped(pre, post, df),
        ensures
            post.grown_from(pre),
            pre.queue_chunk@.len() == 0 && pre.queue_sfp@.len() == 0 && pre.queue_mesh@.len() == 0
                ==> *post == *pre,
    {
        reveal(ChunkManager::stepped);
        if pre.queue_chunk@.len() > 0 {
            let c = pre.queue_chunk@.last();
            assert(pre.queue_chunk@[pre.queue_chunk@.len() - 1] == c);
            assert(pre.queue_chunk@.contains(c));
            assert(!pre.chunks@.contains_key(pre.key_of(c)));
            assert forall|k: SeaHashKey| #[trigger] pre.covers(k) implies post.covers(k) by {
                lemma_wake_pending(
                    pre.chunk_size,
                    post.chunks@.dom(),
                    pre.operation_pending@,
                    c,
                    IDirection::spec_negative_dirs(),
                    8,
                    k,
                );
            }
        } else if pre.queue_sfp@.len() > 0 {
            let c = pre.queue_sfp@.last();
            assert forall|k: SeaHashKey| #[trigger] pre.covers(k) implies post.covers(k) by {
                lemma_wake_pending(
                    pre.chunk_size,
                    post.surface_maps@.dom(),
                    pre.operation_pending@,
                    c,
                    IDirection::spec_positive_dirs(),
                    8,
                    k,
                );
            }
        } else if pre.queue_mesh@.len() > 0 {
            let c = pre.queue_mesh@.last();
            assert(pre.queue_mesh@[pre.queue_mesh@.len() - 1] == c);
            assert(pre.queue_mesh@.contains(c));
            assert(pre.surface_maps@.contains_key(pre.key_of(c)));
            assert(pre.chunks@.contains_key(pre.key_of(c)));
        }
    }

    /// Growth carries on.
    proof fn lemma_grown_trans(&self, mid: &ChunkManager, pre: &ChunkManager)
        requires
            mid.grown_from(pre),
            self.grown_from(mid),
        ensures
            self.grown_from(pre),
    {
        assert forall|k: SeaHashKey| #[trigger] pre.covers(k) implies self.covers(k) by {
            assert(mid.covers(k));
        }
        assert forall|k: SeaHashKey| #[trigger] pre.chunks@.contains_key(k) implies self.chunks@.contains_key(
            k,
        ) && self.chunks@[k] == pre.chunks@[k] by {
            assert(mid.chunks@.contains_key(k));
        }
        assert forall|k: SeaHashKey| #[trigger]
            pre.surface_maps@.contains_key(k) implies self.surface_maps@.contains_key(k) by {
            assert(mid.surface_maps@.contains_key(k));
        }
    }

    /// After the scan every chunk within the view distance is stored or pending.
    proof fn lemma_scan_covers(pre: &ChunkManager, post: &ChunkManager, cur: IVec3, c: IVec3)
        requires
            pre.config_ok(),
            Self::scanned(pre, post, cur),
            spec_shell(cur, c) <= pre.view_dist,
        ensures
            post.covers(post.key_of(c)),
    {
        reveal(ChunkManager::scanned);
        let from = pre.queue_chunk@.len() as int;
        let added = post.queue_chunk@.subrange(from, post.queue_chunk@.len() as int);
        if pre.missing(c) {
            assert(added.contains(c));
            assert(key_among(pre.chunk_size, added, pre.key_of(c)));
        }
    }

    /// The scan loses nothing, and does nothing where every chunk in view is stored.
    pub proof fn lemma_scan_grows(pre: &ChunkManager, post: &ChunkManager, cur: IVec3)
        requires
            pre.config_ok(),
            Self::scanned(pre, post, cur),
        ensures
            post.grown_from(pre),
            post.same_config(pre),
            post.chunks == pre.chunks,
            post.surface_maps == pre.surface_maps,
            post.meshes == pre.meshes,
            post.queue_sfp == pre.queue_sfp,
            post.queue_mesh == pre.queue_mesh,
            post.chunk_updated == pre.chunk_updated,
            pre.idle_at(cur) ==> post.queue_chunk == pre.queue_chunk && post.operation_pending
                == pre.operation_pending,
    {
        reveal(ChunkManager::scanned);
        let from = pre.queue_chunk@.len() as int;
        let added = post.queue_chunk@.subrange(from, post.queue_chunk@.len() as int);
        assert forall|k: SeaHashKey| #[trigger] pre.covers(k) implies post.covers(k) by {}
        if pre.idle_at(cur) {
            assert forall|c: IVec3| spec_shell(cur, c) <= pre.view_dist implies !pre.missing(c) by {
                assert(pre.chunks@.contains_key(pre.key_of(c)));
            }
        }
    }

    /// One operation: the first of the three stages that has a chunk waiting
    /// advances the chunk at the end of its queue.
    pub fn advance<F: Fn(IVec3) -> u8>(&mut self, df: &F)
        requires
            old(self).wf(),
            forall|p: IVec3| call_requires(df, (p,)),
        ensures
            final(self).wf(),
            final(self).same_config(old(self)),
            Self::stepped(old(self), final(self), df),
    {
        reveal(ChunkManager::stepped);
        if self.queue_chunk.len() > 0 {
            self.advance_chunk(df);
        } else if self.queue_sfp.len() > 0 {
            self.advance_sfp();
        } else if self.queue_mesh.len() > 0 {
            self.advance_mesh();
        }
    }

    /// Starts a frame around the chunk `cur_chunk`: the scan, and an empty
    /// set of updated chunks.
    pub fn start_frame(&mut self, cur_chunk: IVec3)
        requires
            old(self).wf(),
            old(self).in_reach(cur_chunk),
        ensures
            final(self).wf(),
            final(self).same_config(old(self)),
            Self::started(old(self), final(self), cur_chunk),
            final(self).grown_from(old(self)),
            forall|c: IVec3|
                spec_shell(cur_chunk, c) <= old(self).view_dist ==> final(self).covers(
                    #[trigger] final(self).key_of(c),
                ),
            old(self).idle_at(cur_chunk) ==> Self::cleared(old(self), final(self)),
    {
        let ghost pre = *self;
        self.enqueue_missing(cur_chunk);
        let ghost a = *self;
        self.chunk_updated.clear();
        proof {
            assert(Self::scanned(&pre, &a, cur_chunk) && Self::cleared(&a, self));
            Self::lemma_scan_grows(&pre, &a, cur_chunk);
            self.lemma_same_queues(&a);
            Self::lemma_settled_kept(&a, self);
            assert forall|c: IVec3| spec_shell(cur_chunk, c) <= pre.view_dist implies self.covers(
                #[trigger] self.key_of(c),
            ) by {
                Self::lemma_scan_covers(&pre, &a, cur_chunk, c);
            }
        }
    }

    /// The work of one frame around a chunk `cur_chunk` in reach: the scan,
    /// an empty set of updated chunks, and as many operations as the budget
    /// allows.
    pub fn run_frame<F: Fn(IVec3) -> u8>(&mut self, cur_chunk: IVec3, df: &F)
        requires
            old(self).wf(),
            old(self).in_reach(cur_chunk),
            forall|p: IVec3| call_requires(df, (p,)),
        ensures
            final(self).wf(),
            final(self).same_config(old(self)),
            Self::framed(old(self), final(self), cur_chunk, df),
            final(self).grown_from(old(self)),
            forall|c: IVec3|
                spec_shell(cur_chunk, c) <= old(self).view_dist ==> final(self).covers(
                    #[trigger] final(self).key_of(c),
                ),
            old(self).idle_at(cur_chunk) ==> Self::cleared(old(self), final(self)),
    {
        let ghost pre = *self;
        self.start_frame(cur_chunk);
        let ghost b = *self;
        let ghost mut trace: Seq<ChunkManager> = seq![b];
        let mut i: i32 = 0;
        while i < self.operations_per_frame
            invariant
                0 <= i,
                self.operations_per_frame > 0 ==> i <= self.operations_per_frame,
                self.operations_per_frame <= 0 ==> i == 0,
                self.same_config(&b),
                forall|p: IVec3| call_requires(df, (p,)),
                self.wf(),
                trace.len() == i + 1,
                trace[0] == b,
                trace.last() == *self,
                Self::worked(trace, df),
                self.grown_from(&b),
                b.queue_chunk@.len() == 0 && b.queue_sfp@.len() == 0 && b.queue_mesh@.len() == 0
                    ==> *self == b,
            decreases self.operations_per_frame - i,
        {
            let ghost mid = *self;
            self.advance(df);
            proof {
                let longer = trace.push(*self);
                assert forall|j: int| #![trigger longer[j]] 0 <= j < longer.len() - 1 implies Self::stepped(
                    &longer[j],
                    &longer[j + 1],
                    df,
                ) by {
                    if j < trace.len() - 1 {
                        assert(longer[j] == trace[j] && longer[j + 1] == trace[j + 1]);
                    }
                }
                assert forall|j: int| 0 <= j < longer.len() implies (#[trigger] longer[j]).wf() by {
                    if j < trace.len() {
                        assert(longer[j] == trace[j]);
                    }
                }
                trace = longer;
                Self::lemma_step_grows(&mid, self, df);
                self.lemma_grown_trans(&mid, &b);
            }
            i += 1;
        }
        proof {
            assert(i as nat == pre.spec_budget());
            Self::lemma_frame_done(&pre, &b, self, cur_chunk, df, trace);
        }
    }

    /// What holds at the end of a frame, from what held at its start and of
    /// its operations.
    proof fn lemma_frame_done<F: Fn(IVec3) -> u8>(
        pre: &ChunkManager,
        b: &ChunkManager,
        post: &ChunkManager,
        cur: IVec3,
        df: &F,
        trace: Seq<ChunkManager>,
    )
        requires
            b.same_config(pre),
            Self::started(pre, b, cur),
            b.grown_from(pre),
            forall|c: IVec3|
                spec_shell(cur, c) <= pre.view_dist ==> b.covers(#[trigger] b.key_of(c)),
            pre.idle_at(cur) ==> Self::cleared(pre, b),
            trace.len() == pre.spec_budget() + 1,
            trace[0] == *b,
            trace.last() == *post,
            Self::worked(trace, df),
            post.same_config(b),
            post.grown_from(b),
            b.queue_chunk@.len() == 0 && b.queue_sfp@.len() == 0 && b.queue_mesh@.len() == 0
                ==> *post == *b,
        ensures
            post.same_config(pre),
            Self::framed(pre, post, cur, df),
            post.grown_from(pre),
            forall|c: IVec3|
                spec_shell(cur, c) <= pre.view_dist ==> post.covers(#[trigger] post.key_of(c)),
            pre.idle_at(cur) ==> Self::cleared(pre, post),
    {
        assert(Self::framed_by(pre, post, cur, df, trace));
        post.lemma_grown_trans(b, pre);
        assert forall|c: IVec3| spec_shell(cur, c) <= pre.view_dist implies post.covers(
            #[trigger] post.key_of(c),
        ) by {
            assert(b.covers(b.key_of(c)));
        }
    }

    /// Whether one axis of the frame around a centre is in reach.
    fn axis_reaches(at: i32, reach: i64, size: i64) -> (ok: bool)
        requires
            0 <= reach <= i32::MAX,
            1 <= size <= 1024,
        ensures
            ok == (fits_i32(at - reach) && fits_i32(at + reach) && fits_i32((at - reach - 2) * size)
                && fits_i32((at - reach + 2) * size) && fits_i32((at + reach - 2) * size)
                && fits_i32((at + reach + 2) * size)),
    {
        let lo: i64 = at as i64 - reach;
        let hi: i64 = at as i64 + reach;
        if lo < i32::MIN as i64 || hi > i32::MAX as i64 {
            return false;
        }
        proof {
            lemma_scaled_range(lo - 2, size as int);
            lemma_scaled_range(lo + 2, size as int);
            lemma_scaled_range(hi - 2, size as int);
            lemma_scaled_range(hi + 2, size as int);
        }
        let a: i64 = (lo - 2) * size;
        let b: i64 = (lo + 2) * size;
        let c: i64 = (hi - 2) * size;
        let d: i64 = (hi + 2) * size;
        let least: i64 = i32::MIN as i64;
        let most: i64 = i32::MAX as i64;
        least <= a && a <= most && least <= b && b <= most && least <= c && c <= most && least <= d
            && d <= most
    }

    /// Whether every chunk that a frame around `cur_chunk` may touch has
    /// voxels whose positions fit 32 bits.
    pub fn reaches(&self, cur_chunk: IVec3) -> (ok: bool)
        requires
            self.config_ok(),
        ensures
            ok == self.in_reach(cur_chunk),
    {
        proof {
            reveal(chunk_addressable);
            self.lemma_size_bounds();
        }
        let reach: i64 = if self.gen_dist > 0 {
            self.gen_dist as i64
        } else {
            0
        };
        let size: i64 = self.chunk_size as i64;
        Self::axis_reaches(cur_chunk.x, reach, size) && Self::axis_reaches(cur_chunk.y, reach, size)
            && Self::axis_reaches(cur_chunk.z, reach, size)
    }

    /// The size of a chunk lies between 1 and 1024.
    pub proof fn lemma_size_bounds(&self)
        requires
            self.config_ok(),
        ensures
            1 <= self.chunk_size <= 1024,
    {
        vstd::arithmetic::power2::lemma2_to64();
        vstd::arithmetic::power2::lemma_pow2_pos(self.chunk_degree as nat);
        if self.chunk_degree < 10 {
            vstd::arithmetic::power2::lemma_pow2_strictly_increases(self.chunk_degree as nat, 10);
        }
    }

    /// What a frame around `cur` makes of `pre`: the scan and the operations
    /// where every chunk that it may touch is in reach; where one is not,
    /// the frame builds nothing, and only empties the set of updated chunks.
    pub open spec fn frame_of<F: Fn(IVec3) -> u8>(
        pre: &ChunkManager,
        post: &ChunkManager,
        cur: IVec3,
        df: &F,
    ) -> bool {
        if pre.in_reach(cur) {
            Self::framed(pre, post, cur, df)
        } else {
            Self::cleared(pre, post)
        }
    }

    /// The work of one frame around the chunk `cur_chunk`, wherever that
    /// chunk lies; tells whether the chunks of the frame were in reach. A
    /// frame whose chunks are not all in reach builds nothing: it empties
    /// the set of updated chunks and leaves the rest as it was.
    pub fn update<F: Fn(IVec3) -> u8>(&mut self, cur_chunk: IVec3, df: &F) -> (done: bool)
        requires
            old(self).wf(),
            forall|p: IVec3| call_requires(df, (p,)),
        ensures
            final(self).wf(),
            final(self).same_config(old(self)),
            done == old(self).in_reach(cur_chunk),
            Self::frame_of(old(self), final(self), cur_chunk, df),
            final(self).grown_from(old(self)),
            !done || old(self).idle_at(cur_chunk) ==> Self::cleared(old(self), final(self)),
            done ==> forall|c: IVec3|
                spec_shell(cur_chunk, c) <= old(self).view_dist ==> final(self).covers(
                    #[trigger] final(self).key_of(c),
                ),
    {
        if !self.reaches(cur_chunk) {
            let ghost pre = *self;
            self.chunk_updated.clear();
            proof {
                self.lemma_same_queues(&pre);
                Self::lemma_settled_kept(&pre, self);
                assert forall|k: SeaHashKey| #[trigger] pre.covers(k) implies self.covers(k) by {}
            }
            return false;
        }
        self.run_frame(cur_chunk, df);
        true
    }

    /// The work of one frame around the chunk `cur_chunk`, wherever that
    /// chunk lies: the scan, an empty set of updated chunks, and as many
    /// operations as the budget allows; around a chunk out of reach only
    /// the set of updated chunks is emptied. After it the pending chunks are
    /// exactly those that wait, none waits twice or in two queues, every
    /// mesh has its surface and every surface its chunk.
    pub fn generate_chunks<F: Fn(IVec3) -> u8>(&mut self, cur_chunk: IVec3, df: &F)
        requires
            old(self).wf(),
            forall|p: IVec3| call_requires(df, (p,)),
        ensures
            final(self).wf(),
            final(self).same_config(old(self)),
            Self::frame_of(old(self), final(self), cur_chunk, df),
            final(self).grown_from(old(self)),
            !old(self).in_reach(cur_chunk) || old(self).idle_at(cur_chunk) ==> Self::cleared(
                old(self),
                final(self),
            ),
            old(self).in_reach(cur_chunk) ==> forall|c: IVec3|
                spec_shell(cur_chunk, c) <= old(self).view_dist ==> final(self).covers(
                    #[trigger] final(self).key_of(c),
                ),
            final(self).operation_pending@ == final(self).queue_keys(final(self).queue_chunk@).union(
                final(self).queue_keys(final(self).queue_sfp@),
            ).union(final(self).queue_keys(final(self).queue_mesh@)),
            final(self).queue_keys(final(self).queue_chunk@).disjoint(
                final(self).queue_keys(final(self).queue_sfp@),
            ),
            final(self).queue_keys(final(self).queue_chunk@).disjoint(
                final(self).queue_keys(final(self).queue_mesh@),
            ),
            final(self).queue_keys(final(self).queue_sfp@).disjoint(
                final(self).queue_keys(final(self).queue_mesh@),
            ),
            final(self).queue_chunk@.no_duplicates(),
            final(self).queue_sfp@.no_duplicates(),
            final(self).queue_mesh@.no_duplicates(),
            forall|k: SeaHashKey| #[trigger]
                final(self).meshes@.contains_key(k) ==> final(self).surface_maps@.contains_key(k),
            forall|k: SeaHashKey| #[trigger]
                final(self).surface_maps@.contains_key(k) ==> final(self).chunks@.contains_key(k),
    {
        let _ = self.update(cur_chunk, df);
        proof {
            self.lemma_pending_exclusive();
        }
    }

    /// Once a frame has left nothing waiting, nothing is pending and every
    /// chunk in view is stored with its surface: the manager is idle there,
    /// so that a second frame around the same chunk changes nothing but to
    /// empty the set of updated chunks.
    pub proof fn lemma_drained_is_idle(&self, cur: IVec3)
        requires
            self.wf(),
            self.queue_chunk@.len() == 0,
            self.queue_sfp@.len() == 0,
            self.queue_mesh@.len() == 0,
            forall|c: IVec3|
                spec_shell(cur, c) <= self.view_dist ==> self.covers(#[trigger] self.key_of(c)),
        ensures
            self.idle_at(cur),
            self.operation_pending@ =~= Set::<SeaHashKey>::empty(),
            forall|c: IVec3|
                spec_shell(cur, c) <= self.view_dist ==> self.surface_maps@.contains_key(
                    #[trigger] self.key_of(c),
                ),
    {
        assert forall|k: SeaHashKey| !self.operation_pending@.contains(k) by {
            if self.operation_pending@.contains(k) {
                let x = choose|x: IVec3| #[trigger] self.waits(x) && self.key_of(x) == k;
                assert(self.queue_chunk@.contains(x) || self.queue_sfp@.contains(x)
                    || self.queue_mesh@.contains(x));
            }
        }
    }

    /// Once nothing waits, every chunk that is stored or pending within a
    /// distance of `cur` has gone through the stages: it is stored, with
    /// its surface.
    pub proof fn lemma_drained_has_all(&self, cur: IVec3, dist: int)
        requires
            self.wf(),
            self.queue_chunk@.len() == 0,
            self.queue_sfp@.len() == 0,
            self.queue_mesh@.len() == 0,
            forall|c: IVec3| spec_shell(cur, c) <= dist ==> self.covers(#[trigger] self.key_of(c)),
        ensures
            self.operation_pending@ =~= Set::<SeaHashKey>::empty(),
            forall|c: IVec3|
                spec_shell(cur, c) <= dist ==> self.chunks@.contains_key(#[trigger] self.key_of(c))
                    && self.surface_maps@.contains_key(self.key_of(c)),
    {
        assert forall|k: SeaHashKey| !self.operation_pending@.contains(k) by {
            if self.operation_pending@.contains(k) {
                let x = choose|x: IVec3| #[trigger] self.waits(x) && self.key_of(x) == k;
                assert(self.queue_chunk@.contains(x) || self.queue_sfp@.contains(x)
                    || self.queue_mesh@.contains(x));
            }
        }
    }

    /// The operations of a frame lose nothing and keep the settings.
    proof fn lemma_work_grows<F: Fn(IVec3) -> u8>(trace: Seq<ChunkManager>, df: &F, i: int)
        requires
            Self::worked(trace, df),
            0 <= i < trace.len(),
        ensures
            trace[i].grown_from(&trace[0]),
            trace[i].same_config(&trace[0]),
        decreases i,
    {
        if i > 0 {
            Self::lemma_work_grows(trace, df, i - 1);
            assert(trace[i - 1].wf());
            assert(Self::stepped(&trace[i - 1], &trace[i - 1 + 1], df));
            Self::lemma_step_grows(&trace[i - 1], &trace[i], df);
            trace[i].lemma_grown_trans(&trace[i - 1], &trace[0]);
            assert(trace[i].same_config(&trace[i - 1])) by {
                reveal(ChunkManager::stepped);
            }
        }
    }

    /// A frame that finds a chunk missing within the view distance leaves
    /// none missing within the generation distance: each is stored or pending.
    pub proof fn lemma_frame_reaches<F: Fn(IVec3) -> u8>(
        pre: &ChunkManager,
        post: &ChunkManager,
        cur: IVec3,
        df: &F,
        c: IVec3,
    )
        requires
            pre.wf(),
            Self::framed(pre, post, cur, df),
            exists|x: IVec3| spec_shell(cur, x) <= pre.view_dist && #[trigger] pre.missing(x),
            spec_shell(cur, c) <= pre.gen_dist,
        ensures
            post.same_config(pre),
            post.covers(post.key_of(c)),
    {
        let trace = choose|trace: Seq<ChunkManager>| #[trigger]
            Self::framed_by(pre, post, cur, df, trace);
        let a = choose|a: ChunkManager| #[trigger]
            Self::scanned(pre, &a, cur) && Self::cleared(&a, &trace[0]);
        Self::lemma_scan_grows(pre, &a, cur);
        assert(a.covers(pre.key_of(c))) by {
            reveal(ChunkManager::scanned);
            let from = pre.queue_chunk@.len() as int;
            let added = a.queue_chunk@.subrange(from, a.queue_chunk@.len() as int);
            if pre.missing(c) {
                assert(added.contains(c));
                assert(key_among(pre.chunk_size, added, pre.key_of(c)));
            } else {
                assert(pre.covers(pre.key_of(c)));
            }
        }
        assert(trace[0].covers(pre.key_of(c)));
        Self::lemma_work_grows(trace, df, trace.len() - 1);
    }

    /// The first frame of a manager without chunks leaves no chunk missing
    /// within the generation distance.
    pub proof fn lemma_first_frame_reaches<F: Fn(IVec3) -> u8>(
        pre: &ChunkManager,
        post: &ChunkManager,
        cur: IVec3,
        df: &F,
        c: IVec3,
    )
        requires
            pre.wf(),
            pre.view_dist >= 0,
            pre.chunks@ =~= Map::<SeaHashKey, crate::world::chunk::WorldChunk>::empty(),
            pre.operation_pending@ =~= Set::<SeaHashKey>::empty(),
            Self::framed(pre, post, cur, df),
            spec_shell(cur, c) <= pre.gen_dist,
        ensures
            post.same_config(pre),
            post.covers(post.key_of(c)),
    {
        assert(spec_shell(cur, cur) == 0);
        assert(pre.missing(cur));
        Self::lemma_frame_reaches(pre, post, cur, df, c);
    }

    /// The operations of a frame that begins with nothing waiting change nothing.
    proof fn lemma_work_idle<F: Fn(IVec3) -> u8>(trace: Seq<ChunkManager>, df: &F, i: int)
        requires
            Self::worked(trace, df),
            0 <= i < trace.len(),
            trace[0].queue_chunk@.len() == 0,
            trace[0].queue_sfp@.len() == 0,
            trace[0].queue_mesh@.len() == 0,
        ensures
            trace[i] == trace[0],
        decreases i,
    {
        if i > 0 {
            Self::lemma_work_idle(trace, df, i - 1);
            assert(trace[i - 1].wf());
            assert(Self::stepped(&trace[i - 1], &trace[i - 1 + 1], df));
            Self::lemma_step_grows(&trace[i - 1], &trace[i], df);
        }
    }

    /// A frame around a chunk at which the manager is idle empties the set
    /// of updated chunks and changes nothing else.
    pub proof fn lemma_idle_frame<F: Fn(IVec3) -> u8>(
        pre: &ChunkManager,
        post: &ChunkManager,
        cur: IVec3,
        df: &F,
    )
        requires
            pre.wf(),
            pre.idle_at(cur),
            Self::frame_of(pre, post, cur, df),
        ensures
            Self::cleared(pre, post),
            post.chunk_updated@ == Set::<SeaHashKey>::empty(),
    {
        if !pre.in_reach(cur) {
            return ;
        }
        let trace = choose|trace: Seq<ChunkManager>| #[trigger]
            Self::framed_by(pre, post, cur, df, trace);
        let a = choose|a: ChunkManager| #[trigger]
            Self::scanned(pre, &a, cur) && Self::cleared(&a, &trace[0]);
        Self::lemma_scan_grows(pre, &a, cur);
        Self::lemma_work_idle(trace, df, trace.len() - 1);
    }

    /// After a frame, wherever its centre lies, the manager is in order:
    /// the pending chunks are exactly those that wait in the three queues,
    /// no chunk waits in two of them, every mesh has its surface and every
    /// surface its chunk.
    pub proof fn lemma_frame_in_order<F: Fn(IVec3) -> u8>(
        pre: &ChunkManager,
        post: &ChunkManager,
        cur: IVec3,
        df: &F,
    )
        requires
            pre.wf(),
            Self::frame_of(pre, post, cur, df),
        ensures
            post.wf(),
            post.operation_pending@ =~= post.queue_keys(post.queue_chunk@).union(
                post.queue_keys(post.queue_sfp@),
            ).union(post.queue_keys(post.queue_mesh@)),
            post.queue_keys(post.queue_chunk@).disjoint(post.queue_keys(post.queue_sfp@)),
            post.queue_keys(post.queue_chunk@).disjoint(post.queue_keys(post.queue_mesh@)),
            post.queue_keys(post.queue_sfp@).disjoint(post.queue_keys(post.queue_mesh@)),
            post.queue_chunk@.no_duplicates(),
            post.queue_sfp@.no_duplicates(),
            post.queue_mesh@.no_duplicates(),
            forall|k: SeaHashKey| #[trigger]
                post.meshes@.contains_key(k) ==> post.surface_maps@.contains_key(k),
            forall|k: SeaHashKey| #[trigger]
                post.surface_maps@.contains_key(k) ==> post.chunks@.contains_key(k),
    {
        if pre.in_reach(cur) {
            let trace = choose|trace: Seq<ChunkManager>| #[trigger]
                Self::framed_by(pre, post, cur, df, trace);
            assert(trace[trace.len() - 1].wf());
        } else {
            post.lemma_same_queues(pre);
            Self::lemma_settled_kept(pre, post);
        }
        post.lemma_pending_exclusive();
    }

    /// The pending chunks are exactly those that wait in the three queues,
    /// and no chunk waits in two of them.
    pub proof fn lemma_pending_exclusive(&self)
        requires
            self.wf(),
        ensures
            self.operation_pending@ =~= self.queue_keys(self.queue_chunk@).union(
                self.queue_keys(self.queue_sfp@),
            ).union(self.queue_keys(self.queue_mesh@)),
            self.queue_keys(self.queue_chunk@).disjoint(self.queue_keys(self.queue_sfp@)),
            self.queue_keys(self.queue_chunk@).disjoint(self.queue_keys(self.queue_mesh@)),
            self.queue_keys(self.queue_sfp@).disjoint(self.queue_keys(self.queue_mesh@)),
    {
        let kc = self.queue_keys(self.queue_chunk@);
        let ks = self.queue_keys(self.queue_sfp@);
        let km = self.queue_keys(self.queue_mesh@);
        assert forall|k: SeaHashKey|
            self.operation_pending@.contains(k) <==> kc.contains(k) || ks.contains(k) || km.contains(
                k,
            ) by {
            if self.operation_pending@.contains(k) {
                let x = choose|x: IVec3| #[trigger] self.waits(x) && self.key_of(x) == k;
                assert(self.queue_chunk@.contains(x) || self.queue_sfp@.contains(x)
                    || self.queue_mesh@.contains(x));
            }
            if kc.contains(k) {
                let x = choose|x: IVec3| #[trigger] self.queue_chunk@.contains(x) && self.key_of(x) == k;
                assert(self.waits(x));
            }
            if ks.contains(k) {
                let x = choose|x: IVec3| #[trigger] self.queue_sfp@.contains(x) && self.key_of(x) == k;
                assert(self.waits(x));
            }
            if km.contains(k) {
                let x = choose|x: IVec3| #[trigger] self.queue_mesh@.contains(x) && self.key_of(x) == k;
                assert(self.waits(x));
            }
        }
        assert forall|k: SeaHashKey| !(kc.contains(k) && ks.contains(k)) by {
            if kc.contains(k) && ks.contains(k) {
                let x = choose|x: IVec3| #[trigger] self.queue_chunk@.contains(x) && self.key_of(x) == k;
                let y = choose|y: IVec3| #[trigger] self.queue_sfp@.contains(y) && self.key_of(y) == k;
                self.lemma_waiting_keys(x, y);
            }
        }
        assert forall|k: SeaHashKey| !(kc.contains(k) && km.contains(k)) by {
            if kc.contains(k) && km.contains(k) {
                let x = choose|x: IVec3| #[trigger] self.queue_chunk@.contains(x) && self.key_of(x) == k;
                let y = choose|y: IVec3| #[trigger] self.queue_mesh@.contains(y) && self.key_of(y) == k;
                self.lemma_waiting_keys(x, y);
            }
        }
        assert forall|k: SeaHashKey| !(ks.contains(k) && km.contains(k)) by {
            if ks.contains(k) && km.contains(k) {
                let x = choose|x: IVec3| #[trigger] self.queue_sfp@.contains(x) && self.key_of(x) == k;
                let y = choose|y: IVec3| #[trigger] self.queue_mesh@.contains(y) && self.key_of(y) == k;
                self.lemma_waiting_keys(x, y);
            }
        }
    }

    /// Two chunks that wait under the same key are the same chunk.
    proof fn lemma_waiting_keys(&self, x: IVec3, y: IVec3)
        requires
            self.wf(),
            self.waits(x),
            self.waits(y),
            self.key_of(x) == self.key_of(y),
        ensures
            x == y,
    {
        if x != y {
            self.lemma_keys_differ(x, y);
        }
    }

    /// Every mesh has its surface, and every surface its chunk.
    pub proof fn lemma_cascade(&self, k: SeaHashKey)
        requires
            self.wf(),
            self.meshes@.contains_key(k),
        ensures
            self.surface_maps@.contains_key(k),
            self.chunks@.contains_key(k),
    {
    }
}

/// The first `n` chunks of a visit that have a mesh.
pub open spec fn filter_meshed(manager: &ChunkManager, coords: Seq<IVec3>, n: nat) -> Seq<IVec3>
    decreases n,
{
    if n == 0 {
        Seq::empty()
    } else {
        let before = filter_meshed(manager, coords, (n - 1) as nat);
        if manager.meshes@.contains_key(manager.key_of(coords[n - 1])) {
            before.push(coords[n - 1])
        } else {
            before
        }
    }
}

/// What the list of meshed chunks holds.
proof fn lemma_meshed(manager: &ChunkManager, cur: IVec3, coords: Seq<IVec3>, n: nat)
    requires
        n <= coords.len(),
        visit_ordered(cur, coords),
    ensures
        visit_ordered(cur, filter_meshed(manager, coords, n)),
        forall|x: IVec3|
            filter_meshed(manager, coords, n).contains(x) <==> manager.meshes@.contains_key(
                manager.key_of(x),
            ) && exists|j: int| 0 <= j < n && coords[j] == x,
    decreases n,
{
    let list = filter_meshed(manager, coords, n);
    if n > 0 {
        let p = (n - 1) as nat;
        let before = filter_meshed(manager, coords, p);
        lemma_meshed(manager, cur, coords, p);
        let c = coords[n - 1];
        assert forall|x: IVec3|
            list.contains(x) <==> manager.meshes@.contains_key(manager.key_of(x)) && exists|j: int|
                0 <= j < n && coords[j] == x by {
            if manager.meshes@.contains_key(manager.key_of(c)) {
                lemma_push_contains(before, c, x);
            }
            if before.contains(x) {
                let j = choose|j: int| 0 <= j < p && coords[j] == x;
                assert(0 <= j < n && coords[j] == x);
            }
            if manager.meshes@.contains_key(manager.key_of(x)) && exists|j: int|
                0 <= j < n && coords[j] == x {
                let j = choose|j: int| 0 <= j < n && coords[j] == x;
                if j < p {
                    assert(0 <= j < p && coords[j] == x);
                }
            }
        }
        if manager.meshes@.contains_key(manager.key_of(c)) {
            assert forall|a: int, b: int| 0 <= a < b < list.len() implies spec_visit_rank(
                cur,
                #[trigger] list[a],
            ) < spec_visit_rank(cur, #[trigger] list[b]) by {
                if b < before.len() {
                    assert(list[a] == before[a] && list[b] == before[b]);
                } else {
                    assert(before.contains(before[a]));
                    let j = choose|j: int| 0 <= j < p && coords[j] == before[a];
                    assert(spec_visit_rank(cur, coords[j]) < spec_visit_rank(cur, coords[n - 1]));
                }
            }
        }
    }
}

impl ChunkManager {
    /// `list` holds the meshes in view of `cur`: one for each chunk within
    /// the view distance that has a mesh, under the key of the chunk, in
    /// the order of the visit.
    pub open spec fn is_visible_list(
        &self,
        cur: IVec3,
        list: Seq<(SeaHashKey, &IndexedMesh)>,
        chunks: Seq<IVec3>,
    ) -> bool {
        &&& visit_ordered(cur, chunks)
        &&& forall|c: IVec3|
            #![trigger chunks.contains(c)]
            #![trigger self.key_of(c)]
            chunks.contains(c) <==> spec_shell(cur, c) <= self.view_dist
                && self.meshes@.contains_key(self.key_of(c))
        &&& list.len() == chunks.len()
        &&& forall|i: int|
            0 <= i < list.len() ==> (#[trigger] list[i]).0 == self.key_of(chunks[i]) && *list[i].1
                == self.meshes@[self.key_of(chunks[i])]
    }

    /// A frame that only empties the set of updated chunks leaves the list
    /// of visible meshes as it was.
    pub proof fn lemma_same_visible(
        &self,
        later: &ChunkManager,
        cur: IVec3,
        list: Seq<(SeaHashKey, &IndexedMesh)>,
        chunks: Seq<IVec3>,
    )
        requires
            Self::cleared(self, later),
            self.is_visible_list(cur, list, chunks),
        ensures
            later.is_visible_list(cur, list, chunks),
    {
        assert forall|c: IVec3|
            #![trigger chunks.contains(c)]
            #![trigger later.key_of(c)]
            chunks.contains(c) <==> spec_shell(cur, c) <= later.view_dist
                && later.meshes@.contains_key(later.key_of(c)) by {
            assert(later.key_of(c) == self.key_of(c));
        }
        assert forall|i: int| 0 <= i < list.len() implies (#[trigger] list[i]).0 == later.key_of(
            chunks[i],
        ) && *list[i].1 == later.meshes@[later.key_of(chunks[i])] by {
            assert(later.key_of(chunks[i]) == self.key_of(chunks[i]));
        }
    }

    /// The list of the meshes in view of a chunk is fixed by the manager:
    /// two lists of them hold the same keys and meshes in the same order.
    pub proof fn lemma_visible_unique(
        &self,
        cur: IVec3,
        first: Seq<(SeaHashKey, &IndexedMesh)>,
        second: Seq<(SeaHashKey, &IndexedMesh)>,
    )
        requires
            exists|chunks: Seq<IVec3>| #[trigger] self.is_visible_list(cur, first, chunks),
            exists|chunks: Seq<IVec3>| #[trigger] self.is_visible_list(cur, second, chunks),
        ensures
            first =~= second,
    {
        let a = choose|chunks: Seq<IVec3>| #[trigger] self.is_visible_list(cur, first, chunks);
        let b = choose|chunks: Seq<IVec3>| #[trigger] self.is_visible_list(cur, second, chunks);
        let rank = |c: IVec3| spec_visit_rank(cur, c);
        assert(crate::seqs::ranked(a, rank)) by {
            assert forall|i: int, j: int| 0 <= i < j < a.len() implies rank(#[trigger] a[i]) < rank(
                #[trigger] a[j],
            ) by {
                assert(spec_visit_rank(cur, a[i]) < spec_visit_rank(cur, a[j]));
            }
        }
        assert(crate::seqs::ranked(b, rank)) by {
            assert forall|i: int, j: int| 0 <= i < j < b.len() implies rank(#[trigger] b[i]) < rank(
                #[trigger] b[j],
            ) by {
                assert(spec_visit_rank(cur, b[i]) < spec_visit_rank(cur, b[j]));
            }
        }
        assert forall|c: IVec3| a.contains(c) <==> b.contains(c) by {
            assert(a.contains(c) <==> spec_shell(cur, c) <= self.view_dist && self.meshes@.contains_key(
                self.key_of(c),
            ));
            assert(b.contains(c) <==> spec_shell(cur, c) <= self.view_dist && self.meshes@.contains_key(
                self.key_of(c),
            ));
        }
        crate::seqs::lemma_ranked_unique(a, b, rank);
        assert(a == b);
        assert forall|i: int| 0 <= i < first.len() implies first[i] == second[i] by {
            assert(first[i].0 == second[i].0);
            assert(*first[i].1 == *second[i].1);
        }
    }

    /// A second frame around the same chunk, after one that has left
    /// nothing waiting, shows the same meshes: the lists of visible meshes
    /// before and after it hold the same keys and meshes in the same order.
    pub proof fn lemma_visible_again<F: Fn(IVec3) -> u8>(
        pre: &ChunkManager,
        post: &ChunkManager,
        cur: IVec3,
        df: &F,
        before: Seq<(SeaHashKey, &IndexedMesh)>,
        after: Seq<(SeaHashKey, &IndexedMesh)>,
    )
        requires
            pre.wf(),
            pre.idle_at(cur),
            Self::frame_of(pre, post, cur, df),
            exists|chunks: Seq<IVec3>| #[trigger] pre.is_visible_list(cur, before, chunks),
            exists|chunks: Seq<IVec3>| #[trigger] post.is_visible_list(cur, after, chunks),
        ensures
            before =~= after,
            post.chunk_updated@ == Set::<SeaHashKey>::empty(),
    {
        Self::lemma_idle_frame(pre, post, cur, df);
        let chunks = choose|chunks: Seq<IVec3>| #[trigger] pre.is_visible_list(cur, before, chunks);
        pre.lemma_same_visible(post, cur, before, chunks);
        post.lemma_visible_unique(cur, before, after);
    }

    /// The meshes of the chunks within the view distance of `cur_chunk`,
    /// each with the key of its chunk, nearest first.
    pub fn visible_meshes(&self, cur_chunk: IVec3) -> (ret: Vec<(SeaHashKey, &IndexedMesh)>)
        requires
            self.config_ok(),
            self.in_reach(cur_chunk),
        ensures
            exists|chunks: Seq<IVec3>| #[trigger] self.is_visible_list(cur_chunk, ret@, chunks),
    {
        let coords = Self::nearby_coords(cur_chunk, self.view_dist);
        let mut ret: Vec<(SeaHashKey, &IndexedMesh)> = Vec::new();
        let mut i: usize = 0;
        while i < coords.len()
            invariant
                i <= coords@.len(),
                self.config_ok(),
                self.in_reach(cur_chunk),
                forall|c: IVec3| coords@.contains(c) ==> spec_shell(cur_chunk, c) <= self.view_dist,
                ret@.len() == filter_meshed(self, coords@, i as nat).len(),
                forall|j: int|
                    0 <= j < ret@.len() ==> (#[trigger] ret@[j]).0 == self.key_of(
                        filter_meshed(self, coords@, i as nat)[j],
                    ) && *ret@[j].1 == self.meshes@[self.key_of(
                        filter_meshed(self, coords@, i as nat)[j],
                    )],
            decreases coords@.len() - i,
        {
            let c = coords[i];
            proof {
                assert(coords@.contains(c));
                self.lemma_in_reach(cur_chunk, c);
                self.lemma_keyable(c, IVec3 { x: 0, y: 0, z: 0 });
            }
            let key = self.chunk_coord2key(c);
            match self.meshes.get(&key) {
                Some(mesh) => {
                    ret.push((key, mesh));
                },
                None => {},
            }
            i += 1;
        }
        proof {
            let chunks = filter_meshed(self, coords@, coords@.len());
            lemma_meshed(self, cur_chunk, coords@, coords@.len());
            assert forall|c: IVec3|
                #![trigger chunks.contains(c)]
                #![trigger self.key_of(c)]
                chunks.contains(c) <==> spec_shell(cur_chunk, c) <= self.view_dist
                    && self.meshes@.contains_key(self.key_of(c)) by {
                if spec_shell(cur_chunk, c) <= self.view_dist {
                    assert(coords@.contains(c));
                }
                if chunks.contains(c) {
                    let j = choose|j: int| 0 <= j < coords@.len() && coords@[j] == c;
                    assert(coords@.contains(c));
                }
            }
            assert(self.is_visible_list(cur_chunk, ret@, chunks));
        }
        ret
    }
}

} // verus!
