//! A linear octree: nodes stored in a table under their locational codes.
//!
//! The code of the root is `1`; the code of child `i` of the node `c` is
//! `(c << 3) | i`. The table is the integer-keyed hash map of the
//! `nohash_hasher` crate; what its operations do to the contents is taken on
//! trust from `std`.
use crate::direction::IDirection;
use crate::math::IVec3;
use nohash_hasher::IntMap;
use nohash_hasher::NoHashHasher;
use std::collections::HashMap;
use vstd::prelude::*;

verus! {

/// The pass-through hasher of the `nohash_hasher` crate, carried through unopened.
#[verifier::external_type_specification]
#[verifier::external_body]
#[verifier::reject_recursive_types(T)]
pub struct ExNoHashHasher<T>(NoHashHasher<T>);

/// `std`'s builder of default-constructed hashers, carried through unopened.
#[verifier::external_type_specification]
#[verifier::external_body]
#[verifier::reject_recursive_types(H)]
pub struct ExBuildHasherDefault<H>(std::hash::BuildHasherDefault<H>);

/// `HashMap::insert` on an integer-keyed table: the code now maps to `v`, and
/// all other entries stay.
#[verifier::external_body]
fn codes_insert<V>(m: &mut IntMap<u64, V>, loc: u64, v: V)
    ensures
        final(m)@ == old(m)@.insert(loc, v),
{
    m.insert(loc, v);
}

/// `HashMap::get` on an integer-keyed table: the value stored under `loc`, if any.
#[verifier::external_body]
fn codes_get<'a, V>(m: &'a IntMap<u64, V>, loc: &u64) -> (found: Option<&'a V>)
    ensures
        found == (if m@.contains_key(*loc) {
            Some(&m@[*loc])
        } else {
            None
        }),
{
    m.get(loc)
}

/// `HashMap::get_mut` on an integer-keyed table: a borrow of the value stored
/// under `loc`, if any; what the caller leaves in it is what the table then
/// holds under `loc`, and all other entries stay.
#[verifier::external_body]
fn codes_get_mut<'a, V>(m: &'a mut IntMap<u64, V>, loc: &u64) -> (found: Option<&'a mut V>)
    ensures
        found is Some <==> old(m)@.contains_key(*loc),
        found is Some ==> *found.unwrap() == old(m)@[*loc] && final(m)@ == old(m)@.insert(
            *loc,
            *final(found.unwrap()),
        ),
        found is None ==> final(m)@ == old(m)@,
{
    m.get_mut(loc)
}

/// `HashMap::keys` on an integer-keyed table: every code of the table once,
/// in an order that is left open.
#[verifier::external_body]
fn codes_keys<V>(m: &IntMap<u64, V>) -> (codes: Vec<u64>)
    ensures
        codes@.no_duplicates(),
        forall|loc: u64| codes@.contains(loc) <==> m@.contains_key(loc),
{
    m.keys().copied().collect()
}

/// `HashMap::contains_key` on an integer-keyed table.
#[verifier::external_body]
fn codes_contains_key<V>(m: &IntMap<u64, V>, loc: &u64) -> (found: bool)
    ensures
        found == m@.contains_key(*loc),
{
    m.contains_key(loc)
}

/// One node: which of its eight children are stored, and its value.
pub struct OctreeNode<T> {
    pub mask: u8,
    pub value: T,
}

/// The code of the parent of `loc`.
pub open spec fn spec_parent(loc: u64) -> u64 {
    loc / 8
}

/// The code of child `i` of the node `loc`.
pub open spec fn spec_child(loc: u64, i: int) -> int {
    loc * 8 + i
}

/// `l` names a node strictly below the node `loc`.
pub open spec fn spec_below(l: u64, loc: u64) -> bool
    decreases l,
{
    l != 0 && (l / 8 == loc || spec_below(l / 8, loc))
}

/// For a node `l` below `loc`: the number of the child of `loc` on the way down to `l`.
pub open spec fn spec_branch(l: u64, loc: u64) -> int
    decreases l,
{
    if l == 0 || l / 8 == loc {
        (l % 8) as int
    } else {
        spec_branch(l / 8, loc)
    }
}

/// A node below `loc` has a larger code, and its branch is one of the eight children.
pub proof fn lemma_below_larger(l: u64, loc: u64)
    requires
        loc >= 1,
        spec_below(l, loc),
    ensures
        l >= 8 * loc,
        0 <= spec_branch(l, loc) < 8,
    decreases l,
{
    if l / 8 != loc {
        lemma_below_larger(l / 8, loc);
    }
}

/// The nodes below `loc` on branch `c` are child `c` and the nodes below it.
pub proof fn lemma_below_child(l: u64, loc: u64, c: int)
    requires
        loc >= 1,
        0 <= c < 8,
        8 * loc + c <= u64::MAX,
    ensures
        (spec_below(l, loc) && spec_branch(l, loc) == c) <==> (l == 8 * loc + c || spec_below(
            l,
            (8 * loc + c) as u64,
        )),
    decreases l,
{
    let child = (8 * loc + c) as u64;
    if l != 0 {
        if l / 8 == loc {
            if spec_below(l, child) {
                lemma_below_larger(l, child);
            }
        } else {
            lemma_below_child(l / 8, loc, c);
            if l / 8 == child {
                assert(child / 8 == loc);
                assert(spec_below(l / 8, loc));
            }
        }
    }
}

/// Bit `i` of a child mask.
pub open spec fn mask_bit(mask: u8, i: u8) -> bool {
    mask & (1u8 << i) != 0
}

/// A sparse octree of at most `depth` levels below the root.
pub struct Octree<T> {
    pub depth: u8,
    pub values: IntMap<u64, OctreeNode<T>>,
}

impl<T> View for Octree<T> {
    type V = Map<u64, OctreeNode<T>>;

    open spec fn view(&self) -> Map<u64, OctreeNode<T>> {
        self.values@
    }
}

impl<T> Octree<T> {
    /// The nearest stored node on the way from `loc` up to the root: `loc`
    /// itself, else its parent, and so on; none once the code has run out.
    pub open spec fn spec_nearest(&self, loc: u64) -> Option<u64>
        decreases loc,
    {
        if self@.contains_key(loc) {
            Some(loc)
        } else if loc == 0 {
            None
        } else {
            self.spec_nearest(spec_parent(loc))
        }
    }

    pub fn new(depth: u8) -> (tree: Self)
        ensures
            tree.depth == depth,
            tree@ == Map::<u64, OctreeNode<T>>::empty(),
    {
        Octree { depth, values: HashMap::default() }
    }

    pub fn get(&self, loc: &u64) -> (found: Option<&OctreeNode<T>>)
        ensures
            found == (if self@.contains_key(*loc) {
                Some(&self@[*loc])
            } else {
                None
            }),
    {
        codes_get(&self.values, loc)
    }

    /// A borrow of the node at `loc`, if it is stored: what the caller
    /// leaves in it is the node that the tree then holds at `loc`.
    pub fn get_mut(&mut self, loc: &u64) -> (found: Option<&mut OctreeNode<T>>)
        ensures
            found is Some <==> old(self)@.contains_key(*loc),
            found is Some ==> *found.unwrap() == old(self)@[*loc] && final(self)@ == old(self)@.insert(
                *loc,
                *final(found.unwrap()),
            ),
            found is None ==> final(self)@ == old(self)@,
            final(self).depth == old(self).depth,
    {
        codes_get_mut(&mut self.values, loc)
    }

    /// A borrow of the parent of `loc`, which the caller knows to be stored.
    pub fn get_parent_mut(&mut self, loc: u64) -> (node: &mut OctreeNode<T>)
        requires
            old(self)@.contains_key(spec_parent(loc)),
        ensures
            *node == old(self)@[spec_parent(loc)],
            final(self)@ == old(self)@.insert(spec_parent(loc), *final(node)),
            final(self).depth == old(self).depth,
    {
        assert(loc >> 3 == loc / 8) by (bit_vector);
        let l: u64 = loc >> 3;
        match codes_get_mut(&mut self.values, &l) {
            Some(node) => node,
            None => vstd::pervasive::unreached(),
        }
    }

    /// The codes of the stored nodes, each once, in an order that is left open.
    pub fn keys(&self) -> (codes: Vec<u64>)
        ensures
            codes@.no_duplicates(),
            forall|loc: u64| codes@.contains(loc) <==> self@.contains_key(loc),
    {
        codes_keys(&self.values)
    }

    /// The node at `loc`, which the caller knows to be stored.
    pub fn get_node(&self, loc: &u64) -> (node: &OctreeNode<T>)
        requires
            self@.contains_key(*loc),
        ensures
            *node == self@[*loc],
    {
        match codes_get(&self.values, loc) {
            Some(node) => node,
            None => vstd::pervasive::unreached(),
        }
    }

    /// The parent of `loc`, which the caller knows to be stored.
    pub fn get_parent(&self, loc: u64) -> (node: &OctreeNode<T>)
        requires
            self@.contains_key(spec_parent(loc)),
        ensures
            *node == self@[spec_parent(loc)],
    {
        assert(loc >> 3 == loc / 8) by (bit_vector);
        let l: u64 = loc >> 3;
        self.get_node(&l)
    }

    pub fn insert(&mut self, loc: u64, node: OctreeNode<T>)
        ensures
            final(self)@ == old(self)@.insert(loc, node),
            final(self).depth == old(self).depth,
    {
        codes_insert(&mut self.values, loc, node);
    }

    /// Stores `value` at `loc` as a node without children.
    pub fn insert_value(&mut self, loc: u64, value: T)
        ensures
            final(self)@ == old(self)@.insert(loc, OctreeNode { mask: 0, value }),
            final(self).depth == old(self).depth,
    {
        self.insert(loc, OctreeNode { mask: 0, value });
    }

    /// The node at `loc`, or else at its nearest stored ancestor.
    pub fn get_node_or_parent(&self, loc: u64) -> (node: &OctreeNode<T>)
        requires
            self.spec_nearest(loc) is Some,
        ensures
            self@.contains_key(self.spec_nearest(loc).unwrap()),
            *node == self@[self.spec_nearest(loc).unwrap()],
    {
        let mut cur: u64 = loc;
        loop
            invariant
                self.spec_nearest(cur) == self.spec_nearest(loc),
                self.spec_nearest(loc) is Some,
            decreases cur,
        {
            match codes_get(&self.values, &cur) {
                Some(node) => {
                    return node;
                },
                None => {
                    assert(cur != 0);
                    assert(cur >> 3 == cur / 8) by (bit_vector);
                    cur = cur >> 3;
                },
            }
        }
    }

    pub fn get_node_option(&self, loc: u64) -> (found: Option<&OctreeNode<T>>)
        ensures
            found == (if self@.contains_key(loc) {
                Some(&self@[loc])
            } else {
                None
            }),
    {
        codes_get(&self.values, &loc)
    }

    /// The node at `loc` followed by those of its first `n` children that its
    /// mask names, in the order of their numbers.
    pub open spec fn spec_children_upto(&self, loc: u64, n: nat) -> Seq<OctreeNode<T>>
        decreases n,
    {
        if n == 0 {
            seq![self@[loc]]
        } else {
            let before = self.spec_children_upto(loc, (n - 1) as nat);
            if mask_bit(self@[loc].mask, (n - 1) as u8) {
                before.push(self@[spec_child(loc, n - 1) as u64])
            } else {
                before
            }
        }
    }

    /// The node at `loc` followed by the children that its mask names.
    pub open spec fn spec_children(&self, loc: u64) -> Seq<OctreeNode<T>> {
        self.spec_children_upto(loc, 8)
    }

    /// Every child that the mask of `loc` names is stored.
    pub open spec fn children_stored(&self, loc: u64) -> bool {
        forall|i: u8|
            0 <= i < 8 && #[trigger] mask_bit(self@[loc].mask, i) ==> self@.contains_key(
                spec_child(loc, i as int) as u64,
            )
    }

    /// The node at `loc`, then its stored children in the order of their numbers.
    pub fn get_children(&self, loc: u64) -> (nodes: Vec<&OctreeNode<T>>)
        requires
            loc < 0x2000_0000_0000_0000,
            self@.contains_key(loc),
            self.children_stored(loc),
        ensures
            nodes@.len() == self.spec_children(loc).len(),
            forall|k: int| 0 <= k < nodes@.len() ==> *nodes@[k] == self.spec_children(loc)[k],
    {
        let cur_node = self.get_node(&loc);
        let mut ret: Vec<&OctreeNode<T>> = Vec::with_capacity(9);
        ret.push(cur_node);
        let mut i: u8 = 0;
        while i < 8
            invariant
                i <= 8,
                loc < 0x2000_0000_0000_0000,
                self@.contains_key(loc),
                self.children_stored(loc),
                *cur_node == self@[loc],
                ret@.len() == self.spec_children_upto(loc, i as nat).len(),
                forall|k: int|
                    0 <= k < ret@.len() ==> *ret@[k] == self.spec_children_upto(loc, i as nat)[k],
            decreases 8 - i,
        {
            if cur_node.mask & (1u8 << i) != 0 {
                assert(mask_bit(self@[loc].mask, i));
                let child_no: u64 = i as u64;
                assert((loc << 3) | child_no == loc * 8 + child_no) by (bit_vector)
                    requires
                        loc < 0x2000_0000_0000_0000,
                        child_no < 8,
                ;
                let child: u64 = (loc << 3) | child_no;
                ret.push(self.get_node(&child));
            }
            i += 1;
        }
        ret
    }

    pub fn contains_key(&self, loc: &u64) -> (found: bool)
        ensures
            found == self@.contains_key(*loc),
    {
        codes_contains_key(&self.values, loc)
    }

    pub fn is_empty(&self) -> (empty: bool)
        ensures
            empty == (self@.dom() =~= Set::<u64>::empty()),
    {
        let empty = self.values.is_empty();
        empty
    }
}

/// Edge `e` of the cube is active: its two corner samples lie on different
/// sides of the iso-surface.
pub open spec fn edge_active(corners: Seq<i32>, e: int) -> bool {
    let edge = IDirection::spec_edge_inds()[e];
    (corners[edge.0 as int] > 0) != (corners[edge.1 as int] > 0)
}

/// The number of active edges among the first `n`.
pub open spec fn crossing_count(corners: Seq<i32>, n: nat) -> nat
    decreases n,
{
    if n == 0 {
        0
    } else {
        crossing_count(corners, (n - 1) as nat) + if edge_active(corners, n - 1) {
            1nat
        } else {
            0nat
        }
    }
}

/// The sum, over the given four edges, of the rise of the field along the
/// edge: the sample at the upper corner minus the sample at the lower corner.
pub open spec fn edge_rise(corners: Seq<i32>, edges: Seq<(usize, usize)>) -> int {
    (corners[edges[0].1 as int] - corners[edges[0].0 as int]) + (corners[edges[1].1 as int]
        - corners[edges[1].0 as int]) + (corners[edges[2].1 as int] - corners[edges[2].0 as int])
        + (corners[edges[3].1 as int] - corners[edges[3].0 as int])
}

/// The signed samples at the eight corners of a voxel that the iso-surface
/// crosses, in the order of the positive directions.
///
/// Position and normal of the feature point follow from them. On an active
/// edge from corner `a` to corner `b` the surface crosses at the fraction
/// `d_a / (d_a - d_b)` of the way; the position is the mean of these
/// crossings. The normal points along the gradient of the field, towards
/// rising samples: along the sums of `d_b - d_a` over the four edges of each
/// axis.
#[derive(Clone, Copy, Debug)]
pub struct SurfacePoint {
    pub corners: [i32; 8],
}

impl SurfacePoint {
    /// The samples are signed bytes, and at least one edge is active.
    pub open spec fn wf(&self) -> bool {
        &&& forall|i: int| 0 <= i < 8 ==> -128 <= #[trigger] self.corners@[i] <= 127
        &&& crossing_count(self.corners@, 12) > 0
    }

    /// The number of active edges.
    pub fn crossings(&self) -> (n: u32)
        ensures
            n == crossing_count(self.corners@, 12),
    {
        count_crossings(&self.corners)
    }

    /// Where the surface crosses edge `e`: the fraction of the way from its
    /// lower to its upper corner, as numerator and denominator; none where
    /// the edge is not active.
    pub fn edge_crossing(&self, e: usize) -> (cut: Option<(i32, i32)>)
        requires
            e < 12,
            forall|i: int| 0 <= i < 8 ==> -128 <= #[trigger] self.corners@[i] <= 127,
        ensures
            cut == (if edge_active(self.corners@, e as int) {
                Some(
                    (
                        self.corners@[IDirection::spec_edge_inds()[e as int].0 as int],
                        (self.corners@[IDirection::spec_edge_inds()[e as int].0 as int]
                            - self.corners@[IDirection::spec_edge_inds()[e as int].1 as int]) as i32,
                    ),
                )
            } else {
                None
            }),
            cut is Some ==> cut.unwrap().1 != 0,
    {
        let edges = IDirection::edge_inds();
        let (a, b) = edges[e];
        let d0 = self.corners[a];
        let d1 = self.corners[b];
        if (d0 > 0) != (d1 > 0) {
            Some((d0, d0 - d1))
        } else {
            None
        }
    }

    /// The gradient of the field over the voxel: the direction of the
    /// normal before it is brought to unit length.
    pub fn gradient(&self) -> (g: IVec3)
        requires
            forall|i: int| 0 <= i < 8 ==> -128 <= #[trigger] self.corners@[i] <= 127,
        ensures
            g.x == edge_rise(self.corners@, IDirection::spec_edge_inds_x()),
            g.y == edge_rise(self.corners@, IDirection::spec_edge_inds_y()),
            g.z == edge_rise(self.corners@, IDirection::spec_edge_inds_z()),
    {
        let x = IDirection::edge_inds_x();
        let y = IDirection::edge_inds_y();
        let z = IDirection::edge_inds_z();
        let d = &self.corners;
        IVec3 {
            x: (d[x[0].1] - d[x[0].0]) + (d[x[1].1] - d[x[1].0]) + (d[x[2].1] - d[x[2].0]) + (d[x[3].1] - d[x[3].0]),
            y: (d[y[0].1] - d[y[0].0]) + (d[y[1].1] - d[y[1].0]) + (d[y[2].1] - d[y[2].0]) + (d[y[3].1] - d[y[3].0]),
            z: (d[z[0].1] - d[z[0].0]) + (d[z[1].1] - d[z[1].0]) + (d[z[2].1] - d[z[2].0]) + (d[z[3].1] - d[z[3].0]),
        }
    }
}

/// Samples that all lie on one side of the surface cross no edge.
pub proof fn lemma_one_side_no_crossing(corners: Seq<i32>, above: bool)
    requires
        corners.len() == 8,
        forall|i: int| 0 <= i < 8 ==> (#[trigger] corners[i] > 0) == above,
    ensures
        crossing_count(corners, 12) == 0,
{
    assert forall|e: int| 0 <= e < 12 implies !edge_active(corners, e) by {
        let edge = IDirection::spec_edge_inds()[e];
        assert(0 <= edge.0 < 8 && 0 <= edge.1 < 8);
        assert((corners[edge.0 as int] > 0) == above);
        assert((corners[edge.1 as int] > 0) == above);
    }
    reveal_with_fuel(crossing_count, 13);
}

/// Where the field depends on the height alone, with the sample `low` at the
/// four lower corners of a voxel and `high` at the four upper ones, the
/// gradient points straight along the y axis, upwards where the field rises.
pub proof fn lemma_gradient_of_layers(corners: Seq<i32>, low: i32, high: i32)
    requires
        corners.len() == 8,
        corners[0] == low && corners[1] == low && corners[3] == low && corners[5] == low,
        corners[2] == high && corners[4] == high && corners[6] == high && corners[7] == high,
    ensures
        edge_rise(corners, IDirection::spec_edge_inds_x()) == 0,
        edge_rise(corners, IDirection::spec_edge_inds_y()) == 4 * (high - low),
        edge_rise(corners, IDirection::spec_edge_inds_z()) == 0,
{
}

/// Counts the active edges of a cube of samples.
pub fn count_crossings(corners: &[i32; 8]) -> (n: u32)
    ensures
        n == crossing_count(corners@, 12),
{
    let edges = IDirection::edge_inds();
    let mut acc: u32 = 0;
    let mut e: usize = 0;
    while e < 12
        invariant
            e <= 12,
            edges@ == IDirection::spec_edge_inds(),
            acc == crossing_count(corners@, e as nat),
            acc <= e,
        decreases 12 - e,
    {
        let (a, b) = edges[e];
        if (corners[a] > 0) != (corners[b] > 0) {
            acc += 1;
        }
        e += 1;
    }
    acc
}

pub type SDFNode = OctreeNode<u8>;

pub type SDFOctree = Octree<u8>;

pub type SurfaceNode = OctreeNode<SurfacePoint>;

pub type SurfaceOctree = Octree<SurfacePoint>;

} // verus!
