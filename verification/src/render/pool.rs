//! A pool of equally sized slots spread over a bounded family of buffers.
//!
//! The pool owns no memory. It hands out `(buffer, offset)` tokens, lowest
//! first, and takes them back when their keys are no longer kept.
use crate::hasher::keys_equal;
use crate::hasher::SeaHashKey;
use crate::hasher::SeaHashMap;
use crate::hasher::SeaHashSet;
use crate::render::mesh::IndexedMesh;
use vstd::prelude::*;

verus! {

/// One slot: the number of a buffer and the number of the slot within it.
/// Slots are ordered by buffer, then by offset.
#[derive(Clone, Copy, Debug, PartialEq, Eq, PartialOrd, Ord, Structural)]
pub struct BucketCoord {
    pub buffer: u16,
    pub offset: u16,
}

/// The order in which slots are handed out: by buffer, then by offset.
pub open spec fn slot_rank(slot: BucketCoord) -> int {
    slot.buffer * 0x1_0000 + slot.offset
}

/// The mathematical state of a pool.
pub struct PoolModel {
    /// The number of buffers that the pool may grow to.
    pub dims: u16,
    /// The number of slots in each buffer.
    pub size: u16,
    /// The number of buffers whose slots are in use or free.
    pub cur_dim: u16,
    /// The slots that are free.
    pub free: Set<BucketCoord>,
    /// The slot of each key that holds one.
    pub reserved: Map<SeaHashKey, BucketCoord>,
    /// The keys that hold a slot, in the order in which they got it.
    pub order: Seq<SeaHashKey>,
}

/// `slot` is the lowest free slot.
pub open spec fn is_least(free: Set<BucketCoord>, slot: BucketCoord) -> bool {
    free.contains(slot) && forall|t: BucketCoord| free.contains(t) ==> slot_rank(slot) <= slot_rank(t)
}

/// The lowest free slot, where there is one.
pub open spec fn least_slot(free: Set<BucketCoord>) -> BucketCoord {
    choose|slot: BucketCoord| is_least(free, slot)
}

/// The slots of the buffer `buffer`.
pub open spec fn buffer_slots(buffer: u16, size: u16) -> Set<BucketCoord> {
    Set::new(|s: BucketCoord| s.buffer == buffer && s.offset < size)
}

impl PoolModel {
    /// A pool with one buffer in use and all its slots free; with no buffer
    /// at all where `dims` is zero.
    pub open spec fn fresh(dims: u16, size: u16) -> PoolModel {
        PoolModel {
            dims,
            size,
            cur_dim: 0,
            free: Set::empty(),
            reserved: Map::empty(),
            order: Seq::empty(),
        }.expand()
    }

    /// The pool grown by one buffer, where it may still grow.
    pub open spec fn expand(self) -> PoolModel {
        if self.cur_dim < self.dims {
            PoolModel {
                cur_dim: (self.cur_dim + 1) as u16,
                free: self.free.union(buffer_slots(self.cur_dim, self.size)),
                ..self
            }
        } else {
            self
        }
    }

    /// The pool after `key` was given the slot `slot`.
    pub open spec fn take(self, key: SeaHashKey, slot: BucketCoord) -> PoolModel {
        PoolModel {
            free: self.free.remove(slot),
            reserved: self.reserved.insert(key, slot),
            order: self.order.push(key),
            ..self
        }
    }

    /// The pool after `key` asked for a slot, and the answer.
    ///
    /// A key that holds a slot keeps it, and is told so only where it is
    /// among the forced keys. Another key gets the lowest free slot; where
    /// none is free the pool grows first, and where it cannot grow, or grows
    /// by nothing, the key gets none.
    pub open spec fn reserve(self, key: SeaHashKey, forced: Set<SeaHashKey>) -> (
        PoolModel,
        Option<BucketCoord>,
    ) {
        if self.reserved.contains_key(key) {
            (
                self,
                if forced.contains(key) {
                    Some(self.reserved[key])
                } else {
                    None
                },
            )
        } else {
            let grown = if self.free.is_empty() {
                self.expand()
            } else {
                self
            };
            if grown.free.is_empty() {
                (grown, None)
            } else {
                let slot = least_slot(grown.free);
                (grown.take(key, slot), Some(slot))
            }
        }
    }

    /// The pool after the first `n` holders were asked whether they are kept:
    /// those that are stay holders, the others have given their slots back.
    /// The holders that were not asked yet are left out.
    pub open spec fn keep_upto(self, keep: Set<SeaHashKey>, n: nat) -> PoolModel
        decreases n,
    {
        if n == 0 {
            PoolModel { order: Seq::empty(), reserved: Map::empty(), ..self }
        } else {
            let before = self.keep_upto(keep, (n - 1) as nat);
            let key = self.order[n - 1];
            if keep.contains(key) {
                PoolModel {
                    order: before.order.push(key),
                    reserved: before.reserved.insert(key, self.reserved[key]),
                    ..before
                }
            } else {
                PoolModel { free: before.free.insert(self.reserved[key]), ..before }
            }
        }
    }

    /// The slots that the first `n` holders lose where only `keep` is kept,
    /// in the order in which they were given out.
    pub open spec fn lost_upto(self, keep: Set<SeaHashKey>, n: nat) -> Seq<BucketCoord>
        decreases n,
    {
        if n == 0 {
            Seq::empty()
        } else {
            let before = self.lost_upto(keep, (n - 1) as nat);
            let key = self.order[n - 1];
            if keep.contains(key) {
                before
            } else {
                before.push(self.reserved[key])
            }
        }
    }

    /// The pool after every holder outside `keep` has lost its slot.
    pub open spec fn keep(self, keep: Set<SeaHashKey>) -> PoolModel {
        self.keep_upto(keep, self.order.len())
    }

    /// The slots that are lost where only `keep` is kept.
    pub open spec fn lost(self, keep: Set<SeaHashKey>) -> Seq<BucketCoord> {
        self.lost_upto(keep, self.order.len())
    }

    /// What holds of every pool: the holders are listed once each; free and
    /// held slots lie in the buffers in use and are all different; and
    /// together they are all the slots of those buffers.
    pub open spec fn wf(self) -> bool {
        &&& self.cur_dim <= self.dims
        &&& self.free.finite()
        &&& self.order.no_duplicates()
        &&& forall|k: SeaHashKey| self.reserved.contains_key(k) <==> self.order.contains(k)
        &&& forall|s: BucketCoord|
            self.free.contains(s) ==> s.buffer < self.cur_dim && s.offset < self.size
        &&& forall|k: SeaHashKey| #[trigger]
            self.reserved.contains_key(k) ==> self.reserved[k].buffer < self.cur_dim
                && self.reserved[k].offset < self.size && !self.free.contains(self.reserved[k])
        &&& forall|j: SeaHashKey, k: SeaHashKey|
            self.reserved.contains_key(j) && self.reserved.contains_key(k) && j != k
                ==> self.reserved[j] != self.reserved[k]
        &&& self.free.len() + self.order.len() == self.cur_dim * self.size
    }

    /// Holder number `j` is not kept and gives back the slot `s`.
    pub open spec fn loses(self, keep: Set<SeaHashKey>, j: int, s: BucketCoord) -> bool {
        0 <= j < self.order.len() && !keep.contains(self.order[j]) && self.reserved[self.order[j]]
            == s
    }

    /// Holder number `j` is kept and is the key `k`.
    pub open spec fn keeps(self, keep: Set<SeaHashKey>, j: int, k: SeaHashKey) -> bool {
        0 <= j < self.order.len() && keep.contains(k) && self.order[j] == k
    }

    /// What the pool is after the first `n` holders were asked.
    pub proof fn lemma_keep_upto(self, keep: Set<SeaHashKey>, n: nat)
        requires
            self.wf(),
            n <= self.order.len(),
        ensures
            ({
                let r = self.keep_upto(keep, n);
                &&& r.dims == self.dims && r.size == self.size && r.cur_dim == self.cur_dim
                &&& r.free.finite()
                &&& forall|s: BucketCoord|
                    r.free.contains(s) <==> self.free.contains(s) || exists|j: int|
                        j < n && #[trigger] self.loses(keep, j, s)
                &&& forall|k: SeaHashKey|
                    r.reserved.contains_key(k) <==> exists|j: int|
                        j < n && #[trigger] self.keeps(keep, j, k)
                &&& forall|k: SeaHashKey|
                    r.reserved.contains_key(k) ==> r.reserved[k] == self.reserved[k]
                &&& forall|k: SeaHashKey| r.reserved.contains_key(k) <==> r.order.contains(k)
                &&& r.order.no_duplicates()
                &&& r.free.len() + r.order.len() + (self.order.len() - n) == self.cur_dim
                    * self.size
                &&& self.lost_upto(keep, n).len() + r.order.len() == n
            }),
        decreases n,
    {
        let r = self.keep_upto(keep, n);
        if n == 0 {
            assert(r.order.len() == 0);
            assert(self.lost_upto(keep, 0).len() == 0);
        } else {
            let p = (n - 1) as nat;
            let before = self.keep_upto(keep, p);
            self.lemma_keep_upto(keep, p);
            let key = self.order[n - 1];
            let slot = self.reserved[key];
            assert(self.order.contains(key));
            assert(self.reserved.contains_key(key));
            if keep.contains(key) {
                assert(self.keeps(keep, n - 1, key));
                assert(!before.reserved.contains_key(key)) by {
                    if before.reserved.contains_key(key) {
                        let j = choose|j: int| j < p && #[trigger] self.keeps(keep, j, key);
                        assert(self.order[j] == self.order[n - 1]);
                    }
                }
                assert forall|k: SeaHashKey|
                    r.reserved.contains_key(k) <==> exists|j: int|
                        j < n && #[trigger] self.keeps(keep, j, k) by {
                    if before.reserved.contains_key(k) {
                        let j = choose|j: int| j < p && #[trigger] self.keeps(keep, j, k);
                        assert(j < n && self.keeps(keep, j, k));
                    }
                    if exists|j: int| j < n && #[trigger] self.keeps(keep, j, k) {
                        let j = choose|j: int| j < n && #[trigger] self.keeps(keep, j, k);
                        if j < p {
                            assert(before.reserved.contains_key(k));
                        }
                    }
                }
                assert forall|s: BucketCoord|
                    r.free.contains(s) <==> self.free.contains(s) || exists|j: int|
                        j < n && #[trigger] self.loses(keep, j, s) by {
                    if exists|j: int| j < p && #[trigger] self.loses(keep, j, s) {
                        let j = choose|j: int| j < p && #[trigger] self.loses(keep, j, s);
                        assert(j < n && self.loses(keep, j, s));
                    }
                    if exists|j: int| j < n && #[trigger] self.loses(keep, j, s) {
                        let j = choose|j: int| j < n && #[trigger] self.loses(keep, j, s);
                        assert(j < p && self.loses(keep, j, s));
                    }
                }
                assert forall|k: SeaHashKey|
                    r.reserved.contains_key(k) <==> r.order.contains(k) by {
                    if r.order.contains(k) {
                        let i = choose|i: int| 0 <= i < r.order.len() && r.order[i] == k;
                        if i < before.order.len() {
                            assert(before.order.contains(k));
                        }
                    }
                    if before.order.contains(k) {
                        let i = choose|i: int| 0 <= i < before.order.len() && before.order[i] == k;
                        assert(r.order[i] == k);
                    }
                    if k == key {
                        assert(r.order[before.order.len() as int] == k);
                    }
                }
                assert(r.order.no_duplicates()) by {
                    assert(!before.order.contains(key));
                    assert forall|i: int, j: int|
                        0 <= i < r.order.len() && 0 <= j < r.order.len() && i != j implies r.order[i]
                        != r.order[j] by {
                        if i < before.order.len() {
                            assert(before.order.contains(r.order[i]));
                        }
                        if j < before.order.len() {
                            assert(before.order.contains(r.order[j]));
                        }
                    }
                }
            } else {
                assert(self.loses(keep, n - 1, slot));
                assert(!before.free.contains(slot)) by {
                    if exists|j: int| j < p && #[trigger] self.loses(keep, j, slot) {
                        let j = choose|j: int| j < p && #[trigger] self.loses(keep, j, slot);
                        assert(self.order.contains(self.order[j]));
                        assert(self.order[j] != key);
                    }
                }
                assert forall|s: BucketCoord|
                    r.free.contains(s) <==> self.free.contains(s) || exists|j: int|
                        j < n && #[trigger] self.loses(keep, j, s) by {
                    if exists|j: int| j < p && #[trigger] self.loses(keep, j, s) {
                        let j = choose|j: int| j < p && #[trigger] self.loses(keep, j, s);
                        assert(j < n && self.loses(keep, j, s));
                    }
                    if exists|j: int| j < n && #[trigger] self.loses(keep, j, s) {
                        let j = choose|j: int| j < n && #[trigger] self.loses(keep, j, s);
                        if j < p {
                            assert(before.free.contains(s));
                        }
                    }
                }
                assert forall|k: SeaHashKey|
                    r.reserved.contains_key(k) <==> exists|j: int|
                        j < n && #[trigger] self.keeps(keep, j, k) by {
                    if before.reserved.contains_key(k) {
                        let j = choose|j: int| j < p && #[trigger] self.keeps(keep, j, k);
                        assert(j < n && self.keeps(keep, j, k));
                    }
                    if exists|j: int| j < n && #[trigger] self.keeps(keep, j, k) {
                        let j = choose|j: int| j < n && #[trigger] self.keeps(keep, j, k);
                        assert(j < p && self.keeps(keep, j, k));
                    }
                }
            }
        }
    }

    /// Keeping only some holders leaves a pool in order: the kept holders
    /// have their slots as before, the others have none, and every slot that
    /// was given back is free again.
    pub proof fn lemma_keep(self, keep: Set<SeaHashKey>)
        requires
            self.wf(),
        ensures
            self.keep(keep).wf(),
            forall|k: SeaHashKey|
                self.keep(keep).reserved.contains_key(k) <==> self.reserved.contains_key(k)
                    && keep.contains(k),
            forall|k: SeaHashKey|
                self.keep(keep).reserved.contains_key(k) ==> self.keep(keep).reserved[k]
                    == self.reserved[k],
            forall|s: BucketCoord|
                self.keep(keep).free.contains(s) <==> self.free.contains(s) || self.lost(
                    keep,
                ).contains(s),
            self.lost(keep).len() + self.keep(keep).order.len() == self.order.len(),
    {
        let n = self.order.len();
        let r = self.keep(keep);
        self.lemma_keep_upto(keep, n);
        assert forall|k: SeaHashKey|
            r.reserved.contains_key(k) <==> self.reserved.contains_key(k) && keep.contains(k) by {
            if r.reserved.contains_key(k) {
                let j = choose|j: int| j < n && #[trigger] self.keeps(keep, j, k);
                assert(self.order.contains(k));
            }
            if self.reserved.contains_key(k) && keep.contains(k) {
                assert(self.order.contains(k));
                let j = choose|j: int| 0 <= j < self.order.len() && self.order[j] == k;
                assert(self.keeps(keep, j, k));
            }
        }
        assert forall|s: BucketCoord|
            r.free.contains(s) <==> self.free.contains(s) || self.lost(keep).contains(s) by {
            self.lemma_lost_upto(keep, n, s);
        }
        assert forall|s: BucketCoord|
            r.free.contains(s) implies s.buffer < r.cur_dim && s.offset < r.size by {
            if !self.free.contains(s) {
                let j = choose|j: int| j < n && #[trigger] self.loses(keep, j, s);
                assert(self.order.contains(self.order[j]));
            }
        }
        assert forall|k: SeaHashKey| #[trigger] r.reserved.contains_key(k) implies r.reserved[k].buffer
            < r.cur_dim && r.reserved[k].offset < r.size && !r.free.contains(r.reserved[k]) by {
            if r.free.contains(r.reserved[k]) {
                let j = choose|j: int| j < n && #[trigger] self.loses(keep, j, r.reserved[k]);
                assert(self.order.contains(self.order[j]));
            }
        }
    }

    /// The slots given back by the first `n` holders are those that `loses` names.
    pub proof fn lemma_lost_upto(self, keep: Set<SeaHashKey>, n: nat, s: BucketCoord)
        requires
            n <= self.order.len(),
        ensures
            self.lost_upto(keep, n).contains(s) <==> exists|j: int|
                j < n && #[trigger] self.loses(keep, j, s),
        decreases n,
    {
        let lost = self.lost_upto(keep, n);
        if n > 0 {
            let p = (n - 1) as nat;
            let before = self.lost_upto(keep, p);
            self.lemma_lost_upto(keep, p, s);
            let key = self.order[n - 1];
            if before.contains(s) {
                let i = choose|i: int| 0 <= i < before.len() && before[i] == s;
                assert(lost[i] == s);
                let j = choose|j: int| j < p && #[trigger] self.loses(keep, j, s);
                assert(j < n && self.loses(keep, j, s));
            }
            if lost.contains(s) && !before.contains(s) {
                let i = choose|i: int| 0 <= i < lost.len() && lost[i] == s;
                assert(!keep.contains(key));
                if i < before.len() {
                    assert(before[i] == s);
                }
                assert(self.loses(keep, n - 1, s));
            }
            if exists|j: int| j < n && #[trigger] self.loses(keep, j, s) {
                let j = choose|j: int| j < n && #[trigger] self.loses(keep, j, s);
                if j == n - 1 {
                    assert(lost[before.len() as int] == s);
                } else {
                    assert(j < p && self.loses(keep, j, s));
                }
            }
        }
    }
}

/// The slots stand in falling order, so that the lowest is the last.
pub open spec fn falling(slots: Seq<BucketCoord>) -> bool {
    forall|i: int, j: int|
        0 <= i < j < slots.len() ==> slot_rank(#[trigger] slots[i]) > slot_rank(#[trigger] slots[j])
}

/// Slots that stand in falling order are all different.
pub proof fn lemma_falling_distinct(slots: Seq<BucketCoord>)
    requires
        falling(slots),
    ensures
        slots.no_duplicates(),
        slots.to_set().finite(),
        slots.to_set().len() == slots.len(),
{
    assert(slots.no_duplicates()) by {
        assert forall|i: int, j: int| 0 <= i < slots.len() && 0 <= j < slots.len() && i != j implies slots[i]
            != slots[j] by {
            if i < j {
                assert(slot_rank(slots[i]) > slot_rank(slots[j]));
            } else {
                assert(slot_rank(slots[j]) > slot_rank(slots[i]));
            }
        }
    }
    slots.unique_seq_to_set();
    vstd::seq_lib::seq_to_set_is_finite(slots);
}

/// The last of the slots in falling order is the lowest of them.
pub proof fn lemma_last_is_least(slots: Seq<BucketCoord>)
    requires
        falling(slots),
        slots.len() > 0,
    ensures
        is_least(slots.to_set(), slots.last()),
        least_slot(slots.to_set()) == slots.last(),
        slots.drop_last().to_set() == slots.to_set().remove(slots.last()),
        falling(slots.drop_last()),
{
    let last = slots.last();
    let set = slots.to_set();
    assert(set.contains(last)) by {
        assert(slots[slots.len() - 1] == last);
    }
    assert forall|t: BucketCoord| set.contains(t) implies slot_rank(last) <= slot_rank(t) by {
        let i = choose|i: int| 0 <= i < slots.len() && slots[i] == t;
        if i < slots.len() - 1 {
            assert(slot_rank(slots[i]) > slot_rank(slots[slots.len() - 1]));
        }
    }
    assert(is_least(set, last));
    let chosen = least_slot(set);
    assert(is_least(set, chosen));
    assert(slot_rank(chosen) == slot_rank(last));
    assert(chosen == last);
    lemma_falling_distinct(slots);
    assert(slots.drop_last().to_set() =~= set.remove(last)) by {
        assert forall|t: BucketCoord| slots.drop_last().to_set().contains(t) <==> set.remove(
            last,
        ).contains(t) by {
            if slots.drop_last().to_set().contains(t) {
                let i = choose|i: int| 0 <= i < slots.len() - 1 && slots.drop_last()[i] == t;
                assert(slots[i] == t);
            }
            if set.remove(last).contains(t) {
                let i = choose|i: int| 0 <= i < slots.len() && slots[i] == t;
                assert(slots.drop_last()[i] == t);
            }
        }
    }
}

/// `a` is handed out before `b`.
fn slot_before(a: BucketCoord, b: BucketCoord) -> (r: bool)
    ensures
        r == (slot_rank(a) < slot_rank(b)),
{
    a.buffer < b.buffer || (a.buffer == b.buffer && a.offset < b.offset)
}

/// Puts a slot back among the free slots, at its place in the falling order.
fn insert_free(pool: &mut Vec<BucketCoord>, slot: BucketCoord)
    requires
        falling(old(pool)@),
        !old(pool)@.contains(slot),
    ensures
        falling(final(pool)@),
        final(pool)@.to_set() == old(pool)@.to_set().insert(slot),
        final(pool)@.len() == old(pool)@.len() + 1,
{
    let mut i: usize = pool.len();
    while i > 0 && slot_before(pool[i - 1], slot)
        invariant
            pool@ == old(pool)@,
            i <= pool@.len(),
            forall|j: int| i <= j < pool@.len() ==> slot_rank(#[trigger] pool@[j]) < slot_rank(slot),
        decreases i,
    {
        i -= 1;
    }
    let ghost before = pool@;
    proof {
        if i > 0 {
            assert(before.contains(before[i - 1]));
            assert(slot_rank(before[i - 1]) != slot_rank(slot));
        }
    }
    pool.insert(i, slot);
    proof {
        assert(pool@ == before.insert(i as int, slot));
        assert(falling(pool@)) by {
            assert forall|a: int, b: int| 0 <= a < b < pool@.len() implies slot_rank(
                #[trigger] pool@[a],
            ) > slot_rank(#[trigger] pool@[b]) by {
                if b < i {
                    assert(pool@[a] == before[a] && pool@[b] == before[b]);
                } else if b == i {
                    assert(pool@[a] == before[a]);
                    assert(slot_rank(before[a]) >= slot_rank(before[i - 1]));
                } else if a < i {
                    assert(pool@[a] == before[a] && pool@[b] == before[b - 1]);
                    if a < b - 1 {
                    } else {
                    }
                    assert(slot_rank(before[a]) >= slot_rank(before[i - 1]));
                    assert(slot_rank(before[b - 1]) < slot_rank(slot));
                } else if a == i {
                    assert(pool@[b] == before[b - 1]);
                } else {
                    assert(pool@[a] == before[a - 1] && pool@[b] == before[b - 1]);
                }
            }
        }
        assert(pool@.to_set() =~= before.to_set().insert(slot)) by {
            assert forall|t: BucketCoord| pool@.to_set().contains(t) <==> before.to_set().insert(
                slot,
            ).contains(t) by {
                if pool@.to_set().contains(t) {
                    let j = choose|j: int| 0 <= j < pool@.len() && pool@[j] == t;
                    if j < i {
                        assert(before[j] == t);
                    } else if j > i {
                        assert(before[j - 1] == t);
                    }
                }
                if before.to_set().contains(t) {
                    let j = choose|j: int| 0 <= j < before.len() && before[j] == t;
                    if j < i {
                        assert(pool@[j] == t);
                    } else {
                        assert(pool@[j + 1] == t);
                    }
                }
                if t == slot {
                    assert(pool@[i as int] == t);
                }
            }
        }
    }
}

/// The keys of a list of keyed meshes.
pub open spec fn listed_keys(list: Seq<(SeaHashKey, &IndexedMesh)>) -> Set<SeaHashKey> {
    Set::new(|k: SeaHashKey| exists|i: int| 0 <= i < list.len() && (#[trigger] list[i]).0 == k)
}

/// Whether `key` is the key of one of the listed meshes.
fn list_has_key(list: &Vec<(SeaHashKey, &IndexedMesh)>, key: &SeaHashKey) -> (found: bool)
    ensures
        found == listed_keys(list@).contains(*key),
{
    let mut i: usize = 0;
    while i < list.len()
        invariant
            i <= list@.len(),
            forall|j: int| 0 <= j < i ==> (#[trigger] list@[j]).0 != *key,
        decreases list@.len() - i,
    {
        if keys_equal(&list[i].0, key) {
            return true;
        }
        i += 1;
    }
    false
}

/// The pool of slots: which are free, and which key holds which.
pub struct BucketPool {
    /// The number of buffers that the pool may grow to.
    pub dims: u16,
    /// The number of slots in each buffer.
    pub size: u16,
    /// The number of buffers whose slots are in use or free.
    pub cur_dim: u16,
    /// The free slots in falling order.
    pub pool: Vec<BucketCoord>,
    /// The slot of each key that holds one.
    pub reserved: SeaHashMap<SeaHashKey, BucketCoord>,
    /// The keys that hold a slot, in the order in which they got it.
    pub holders: Vec<SeaHashKey>,
}

impl View for BucketPool {
    type V = PoolModel;

    open spec fn view(&self) -> PoolModel {
        PoolModel {
            dims: self.dims,
            size: self.size,
            cur_dim: self.cur_dim,
            free: self.pool@.to_set(),
            reserved: self.reserved@,
            order: self.holders@,
        }
    }
}

impl BucketPool {
    pub open spec fn wf(&self) -> bool {
        self@.wf() && falling(self.pool@)
    }

    /// The number of keys that hold a slot.
    pub fn len(&self) -> (n: usize)
        ensures
            n == self@.order.len(),
    {
        self.holders.len()
    }

    pub fn is_expandable(&self) -> (r: bool)
        ensures
            r == (self.dims > self.cur_dim),
    {
        self.dims > self.cur_dim
    }

    pub fn new(dims: u16, size: u16) -> (pool: Self)
        ensures
            pool.wf(),
            pool@ == PoolModel::fresh(dims, size),
    {
        let mut s = BucketPool {
            dims,
            size,
            cur_dim: 0,
            pool: Vec::new(),
            reserved: SeaHashMap::new(),
            holders: Vec::new(),
        };
        proof {
            assert(s.pool@.to_set() =~= Set::<BucketCoord>::empty());
            assert(s@.free.len() == 0);
            assert(s.holders@ =~= Seq::<SeaHashKey>::empty());
            assert(s@.wf());
        }
        s.expand();
        s
    }

    /// Takes the next buffer into use, where there is one: all its slots become free.
    pub fn expand(&mut self) -> (grown: bool)
        requires
            old(self).wf(),
        ensures
            final(self).wf(),
            final(self)@ == old(self)@.expand(),
            grown == (old(self).cur_dim < old(self).dims),
    {
        if !self.is_expandable() {
            return false;
        }
        let mut slots: Vec<BucketCoord> = Vec::new();
        let mut x: u16 = self.size;
        while x > 0
            invariant
                x <= self.size,
                self.cur_dim < self.dims,
                slots@.len() == self.size - x,
                falling(slots@),
                forall|i: int|
                    0 <= i < slots@.len() ==> (#[trigger] slots@[i]).buffer == self.cur_dim
                        && slots@[i].offset == self.size - 1 - i,
            decreases x,
        {
            x -= 1;
            slots.push(BucketCoord { buffer: self.cur_dim, offset: x });
        }
        let ghost fresh = slots@;
        let mut i: usize = 0;
        while i < self.pool.len()
            invariant
                i <= self.pool@.len(),
                self.wf(),
                *self == *old(self),
                self.cur_dim < self.dims,
                fresh.len() == self.size,
                forall|i: int|
                    0 <= i < fresh.len() ==> (#[trigger] fresh[i]).buffer == self.cur_dim
                        && fresh[i].offset == self.size - 1 - i,
                slots@ == fresh + self.pool@.subrange(0, i as int),
                falling(slots@),
            decreases self.pool@.len() - i,
        {
            let slot = self.pool[i];
            let ghost before = slots@;
            slots.push(slot);
            proof {
                assert(self.pool@.subrange(0, i + 1) =~= self.pool@.subrange(0, i as int).push(
                    slot,
                ));
                assert(slots@ =~= fresh + self.pool@.subrange(0, i + 1));
                assert(self.pool@.to_set().contains(slot));
                assert forall|a: int, b: int| 0 <= a < b < slots@.len() implies slot_rank(
                    #[trigger] slots@[a],
                ) > slot_rank(#[trigger] slots@[b]) by {
                    if b < before.len() {
                        assert(slots@[a] == before[a] && slots@[b] == before[b]);
                    } else {
                        assert(slots@[a] == before[a]);
                        if a < fresh.len() {
                            assert(before[a] == fresh[a]);
                        } else {
                            assert(before[a] == self.pool@[a - fresh.len()]);
                        }
                    }
                }
            }
            i += 1;
        }
        proof {
            assert(self.pool@.subrange(0, self.pool@.len() as int) =~= self.pool@);
            let grown = old(self)@.expand();
            assert(slots@.to_set() =~= grown.free) by {
                assert forall|t: BucketCoord| slots@.to_set().contains(t) <==> grown.free.contains(
                    t,
                ) by {
                    if slots@.to_set().contains(t) {
                        let j = choose|j: int| 0 <= j < slots@.len() && slots@[j] == t;
                        if j < fresh.len() {
                            assert(t == fresh[j]);
                        } else {
                            assert(t == self.pool@[j - fresh.len()]);
                            assert(self.pool@.to_set().contains(t));
                        }
                    }
                    if self.pool@.to_set().contains(t) {
                        let j = choose|j: int| 0 <= j < self.pool@.len() && self.pool@[j] == t;
                        assert(slots@[fresh.len() + j] == t);
                    }
                    if buffer_slots(self.cur_dim, self.size).contains(t) {
                        assert(slots@[self.size - 1 - t.offset] == t);
                    }
                }
            }
            lemma_falling_distinct(slots@);
            lemma_falling_distinct(self.pool@);
            assert((self.cur_dim + 1) * self.size == self.cur_dim * self.size + self.size)
                by (nonlinear_arith);
        }
        self.pool = slots;
        self.cur_dim += 1;
        true
    }

    /// Asks for the slot of `key`: see `PoolModel::reserve`.
    pub fn reserve(&mut self, key: &SeaHashKey, force: &SeaHashSet<SeaHashKey>) -> (slot: Option<BucketCoord>)
        requires
            old(self).wf(),
        ensures
            final(self).wf(),
            (final(self)@, slot) == old(self)@.reserve(*key, force@),
    {
        if self.reserved.contains_key(key) {
            if !force.contains(key) {
                None
            } else {
                Some(*self.reserved.index(key))
            }
        } else {
            if self.pool.len() == 0 {
                proof {
                    assert(self.pool@.to_set() =~= Set::<BucketCoord>::empty());
                }
                self.expand();
            } else {
                proof {
                    assert(self.pool@.to_set().contains(self.pool@[0]));
                }
            }
            let ghost grown = self@;
            let ghost slots = self.pool@;
            match self.pool.pop() {
                None => {
                    proof {
                        assert(slots.to_set() =~= Set::<BucketCoord>::empty());
                    }
                    None
                },
                Some(slot) => {
                    proof {
                        lemma_last_is_least(slots);
                        lemma_falling_distinct(slots);
                        lemma_falling_distinct(slots.drop_last());
                        assert(self.pool@ == slots.drop_last());
                        assert(slots.to_set().contains(slot));
                    }
                    self.reserved.insert(*key, slot);
                    self.holders.push(*key);
                    proof {
                        grown.lemma_take_wf(*key);
                        assert(self@.free =~= grown.take(*key, slot).free);
                    }
                    Some(slot)
                },
            }
        }
    }

    /// Frees the slot of every key that is not among the listed ones, and
    /// hands back the freed slots in the order in which they had been given out.
    pub fn keep_reserved(&mut self, keep: &Vec<(SeaHashKey, &IndexedMesh)>) -> (removed: Vec<BucketCoord>)
        requires
            old(self).wf(),
        ensures
            final(self).wf(),
            final(self)@ == old(self)@.keep(listed_keys(keep@)),
            removed@ == old(self)@.lost(listed_keys(keep@)),
    {
        let ghost model = self@;
        let ghost kept = listed_keys(keep@);
        let mut keep_reserved: SeaHashMap<SeaHashKey, BucketCoord> = SeaHashMap::new();
        let mut keep_holders: Vec<SeaHashKey> = Vec::new();
        let mut removed: Vec<BucketCoord> = Vec::new();
        let mut i: usize = 0;
        proof {
            assert(keep_holders@ =~= model.keep_upto(kept, 0).order);
            assert(removed@ =~= model.lost_upto(kept, 0));
        }
        while i < self.holders.len()
            invariant
                i <= self.holders@.len(),
                model.wf(),
                model == old(self)@,
                kept == listed_keys(keep@),
                self.dims == model.dims,
                self.size == model.size,
                self.cur_dim == model.cur_dim,
                self.holders@ == model.order,
                self.reserved@ == model.reserved,
                falling(self.pool@),
                self.pool@.to_set() == model.keep_upto(kept, i as nat).free,
                keep_reserved@ == model.keep_upto(kept, i as nat).reserved,
                keep_holders@ == model.keep_upto(kept, i as nat).order,
                removed@ == model.lost_upto(kept, i as nat),
            decreases self.holders@.len() - i,
        {
            let key = self.holders[i];
            proof {
                model.lemma_keep_upto(kept, i as nat);
                assert(model.order.contains(key));
            }
            let slot = *self.reserved.index(&key);
            if list_has_key(keep, &key) {
                keep_reserved.insert(key, slot);
                keep_holders.push(key);
            } else {
                proof {
                    assert(!self.pool@.contains(slot)) by {
                        if self.pool@.contains(slot) {
                            assert(self.pool@.to_set().contains(slot));
                            let j = choose|j: int| j < i && #[trigger] model.loses(kept, j, slot);
                            assert(model.order.contains(model.order[j]));
                            assert(model.order[j] != key);
                        }
                    }
                }
                insert_free(&mut self.pool, slot);
                removed.push(slot);
            }
            i += 1;
        }
        proof {
            model.lemma_keep(kept);
            model.lemma_keep_upto(kept, model.order.len());
            assert(i == model.order.len());
        }
        self.reserved = keep_reserved;
        self.holders = keep_holders;
        assert(self@ == model.keep(kept));
        removed
    }
}

impl PoolModel {
    /// Two keys never hold the same slot.
    pub proof fn lemma_slots_unique(self, j: SeaHashKey, k: SeaHashKey)
        requires
            self.wf(),
            self.reserved.contains_key(j),
            self.reserved.contains_key(k),
            j != k,
        ensures
            self.reserved[j] != self.reserved[k],
    {
    }

    /// Asking again for a key that holds a slot changes nothing; the slot is
    /// told only to a forced key.
    pub proof fn lemma_reserve_again(self, key: SeaHashKey, forced: Set<SeaHashKey>)
        requires
            self.reserved.contains_key(key),
        ensures
            self.reserve(key, forced).0 == self,
            forced.contains(key) ==> self.reserve(key, forced).1 == Some(self.reserved[key]),
            !forced.contains(key) ==> self.reserve(key, forced).1 == None::<BucketCoord>,
            self.reserve(key, Set::empty()).1 == None::<BucketCoord>,
            self.reserve(key, Set::empty().insert(key)).1 == Some(self.reserved[key]),
    {
    }

    /// A pool of one buffer with one slot serves one key at a time: the
    /// first key that asks gets the slot, and another key gets none.
    pub proof fn lemma_single_slot(
        first: SeaHashKey,
        second: SeaHashKey,
        forced: Set<SeaHashKey>,
        forced_then: Set<SeaHashKey>,
    )
        requires
            first != second,
        ensures
            PoolModel::fresh(1, 1).reserve(first, forced).1 == Some(
                BucketCoord { buffer: 0, offset: 0 },
            ),
            PoolModel::fresh(1, 1).reserve(first, forced).0.reserve(second, forced_then).1
                == None::<BucketCoord>,
    {
        let slot = BucketCoord { buffer: 0, offset: 0 };
        let fresh = PoolModel::fresh(1, 1);
        assert(fresh.free =~= Set::<BucketCoord>::empty().insert(slot));
        assert(fresh.free.contains(slot));
        assert(is_least(fresh.free, slot));
        let low = least_slot(fresh.free);
        assert(is_least(fresh.free, low));
        assert(low == slot);
        let taken = fresh.reserve(first, forced).0;
        assert(taken.free =~= Set::<BucketCoord>::empty());
        assert(!taken.reserved.contains_key(second));
        assert(taken.expand() == taken);
    }

    /// Every way of asking leaves a pool in order.
    pub proof fn lemma_reserve_wf(self, key: SeaHashKey, forced: Set<SeaHashKey>)
        requires
            self.wf(),
        ensures
            self.reserve(key, forced).0.wf(),
            self.expand().wf(),
    {
        self.lemma_expand_wf();
        if !self.reserved.contains_key(key) {
            let grown = if self.free.is_empty() {
                self.expand()
            } else {
                self
            };
            if !grown.free.is_empty() {
                grown.lemma_take_wf(key);
            }
        }
    }

    /// Growing leaves a pool in order.
    pub proof fn lemma_expand_wf(self)
        requires
            self.wf(),
        ensures
            self.expand().wf(),
    {
        if self.cur_dim < self.dims {
            let fresh = buffer_slots(self.cur_dim, self.size);
            lemma_buffer_slots(self.cur_dim, self.size);
            assert(self.free.disjoint(fresh));
            vstd::set_lib::lemma_set_disjoint_lens(self.free, fresh);
            assert((self.cur_dim + 1) * self.size == self.cur_dim * self.size + self.size)
                by (nonlinear_arith);
        }
    }

    /// Giving the lowest free slot to a key that holds none leaves a pool in order.
    pub proof fn lemma_take_wf(self, key: SeaHashKey)
        requires
            self.wf(),
            !self.reserved.contains_key(key),
            !self.free.is_empty(),
        ensures
            is_least(self.free, least_slot(self.free)),
            self.take(key, least_slot(self.free)).wf(),
    {
        lemma_least_exists(self.free);
        let slot = least_slot(self.free);
        let model = self.take(key, slot);
        assert(model.order.no_duplicates()) by {
            assert(!self.order.contains(key));
            assert forall|i: int, j: int|
                0 <= i < model.order.len() && 0 <= j < model.order.len() && i != j implies model.order[i]
                != model.order[j] by {
                if i < self.order.len() {
                    assert(self.order.contains(model.order[i]));
                }
                if j < self.order.len() {
                    assert(self.order.contains(model.order[j]));
                }
            }
        }
        assert forall|k: SeaHashKey| model.reserved.contains_key(k) <==> model.order.contains(k) by {
            if model.order.contains(k) {
                let i = choose|i: int| 0 <= i < model.order.len() && model.order[i] == k;
                if i < self.order.len() {
                    assert(self.order.contains(k));
                }
            }
            if self.order.contains(k) {
                let i = choose|i: int| 0 <= i < self.order.len() && self.order[i] == k;
                assert(model.order[i] == k);
            }
            if k == key {
                assert(model.order[self.order.len() as int] == k);
            }
        }
    }
}

/// A buffer has `size` slots.
pub proof fn lemma_buffer_slots(buffer: u16, size: u16)
    ensures
        buffer_slots(buffer, size).finite(),
        buffer_slots(buffer, size).len() == size,
    decreases size,
{
    if size == 0 {
        assert(buffer_slots(buffer, size) =~= Set::<BucketCoord>::empty());
    } else {
        let less = (size - 1) as u16;
        lemma_buffer_slots(buffer, less);
        assert(buffer_slots(buffer, size) =~= buffer_slots(buffer, less).insert(
            BucketCoord { buffer, offset: less },
        ));
    }
}

/// A finite set of slots that is not empty has a lowest slot.
pub proof fn lemma_least_exists(free: Set<BucketCoord>)
    requires
        free.finite(),
        !free.is_empty(),
    ensures
        is_least(free, least_slot(free)),
    decreases free.len(),
{
    let one = free.choose();
    let rest = free.remove(one);
    if rest.is_empty() {
        assert forall|t: BucketCoord| free.contains(t) implies t == one by {
            if t != one {
                assert(rest.contains(t));
            }
        }
        assert(is_least(free, one));
    } else {
        lemma_least_exists(rest);
        let low = least_slot(rest);
        if slot_rank(one) <= slot_rank(low) {
            assert forall|t: BucketCoord| free.contains(t) implies slot_rank(one) <= slot_rank(t) by {
                if t != one {
                    assert(rest.contains(t));
                }
            }
            assert(is_least(free, one));
        } else {
            assert forall|t: BucketCoord| free.contains(t) implies slot_rank(low) <= slot_rank(t) by {
                if t != one {
                    assert(rest.contains(t));
                }
            }
            assert(is_least(free, low));
        }
    }
}

} // verus!
