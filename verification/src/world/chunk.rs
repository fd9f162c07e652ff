//! One chunk of the voxel lattice: its samples, the sparse tree that stores
//! them, and the reading of samples across the borders to its neighbours.
use crate::math::lemma_coord2ind_bounds;
use crate::math::spec_coord2ind;
use crate::math::IVec3;
use crate::octree::count_crossings;
use crate::octree::crossing_count;
use crate::octree::lemma_below_child;
use crate::math::ind2coord;
use crate::math::lemma_coord2ind_injective;
use crate::octree::SurfaceOctree;
use crate::octree::SurfacePoint;
use crate::world::morton::lemma_locational_prefix;
use crate::octree::lemma_below_larger;
use crate::octree::spec_below;
use crate::octree::spec_branch;
use crate::octree::OctreeNode;
use crate::octree::SDFNode;
use crate::octree::SDFOctree;
use crate::direction::IDirection;
use crate::math::fits_i32;
use crate::math::positive_modulo;
use crate::math::ivec3;
use crate::world::morton::lemma_child_loc;
use crate::world::morton::lemma_degree_zero;
use crate::world::morton::lemma_coord2loc_valid;
use crate::world::morton::lemma_morton_round_trip;
use crate::world::morton::lemma_parent_loc;
use crate::world::morton::spec_coord2loc;
use crate::world::morton::lemma_deeper_loc;
use crate::world::morton::lemma_root_loc;
use crate::world::morton::lemma_shl_pow2;
use crate::world::morton::spec_chunk_size;
use crate::world::morton::spec_loc2coord;
use crate::world::morton::spec_loc_degree;
use crate::world::morton::valid_loc;
use vstd::arithmetic::power2::lemma_pow2_strictly_increases;
use vstd::arithmetic::power2::pow2;
use vstd::prelude::*;

verus! {

/// The deepest chunk that can be sampled on every machine. A chunk of
/// degree `d` asks the oracle once for each of its `8^d` voxels and counts
/// them in a `usize`; locational codes reach down to degree 21, but a
/// `usize` of 32 bits counts the voxels of a chunk up to degree 10 only
/// (`8^10 = 2^30`).
pub const MAX_DEGREE: u8 = 10;

/// The number of samples in the full grid of a chunk.
pub open spec fn spec_grid_len(degree: u8) -> int {
    spec_chunk_size(degree) * spec_chunk_size(degree) * spec_chunk_size(degree)
}

/// The sample at the lower corner of the cube that `loc` names.
pub open spec fn grid_value(degree: u8, grid: Seq<u8>, loc: u64) -> u8 {
    grid[spec_coord2ind(spec_loc2coord(degree, loc), spec_chunk_size(degree))]
}

/// The child mask of the node `loc`, `fuel` levels above the finest grid, over
/// its first `k` children: bit `i` is set where child `i` is kept.
pub open spec fn tree_mask(degree: u8, grid: Seq<u8>, loc: u64, fuel: nat, k: nat) -> u8
    decreases fuel, k,
{
    if fuel == 0 || k == 0 {
        0
    } else {
        let before = tree_mask(degree, grid, loc, fuel, (k - 1) as nat);
        if tree_keeps(degree, grid, (8 * loc + (k - 1)) as u64, (fuel - 1) as nat) {
            before | (1u8 << ((k - 1) as u8))
        } else {
            before
        }
    }
}

/// A node other than the root is kept where it has kept children or its
/// sample differs from that of its parent.
pub open spec fn tree_keeps(degree: u8, grid: Seq<u8>, loc: u64, fuel: nat) -> bool
    decreases fuel, 9nat,
{
    tree_mask(degree, grid, loc, fuel, 8) != 0 || grid_value(degree, grid, loc) != grid_value(
        degree,
        grid,
        loc / 8,
    )
}

/// The node that the tree of a grid holds for `loc`.
pub open spec fn tree_node(degree: u8, grid: Seq<u8>, loc: u64) -> SDFNode {
    OctreeNode {
        mask: tree_mask(degree, grid, loc, (degree - spec_loc_degree(loc)) as nat, 8),
        value: grid_value(degree, grid, loc),
    }
}

/// `l` is a node of the tree of the grid: the root, or a kept node of at most the full degree.
pub open spec fn tree_has(degree: u8, grid: Seq<u8>, l: u64) -> bool {
    valid_loc(l) && spec_loc_degree(l) <= degree && (l == 1 || tree_keeps(
        degree,
        grid,
        l,
        (degree - spec_loc_degree(l)) as nat,
    ))
}

/// `l` is a kept node of the tree of the grid strictly below `loc`.
pub open spec fn kept_below(degree: u8, grid: Seq<u8>, l: u64, loc: u64) -> bool {
    spec_below(l, loc) && tree_has(degree, grid, l)
}

/// Every voxel of the chunk at `coord`, and of the chunks around it, has a
/// position that fits 32 bits.
#[verifier::opaque]
pub open spec fn chunk_addressable(coord: IVec3, degree: u8) -> bool {
    let size = spec_chunk_size(degree);
    &&& fits_i32((coord.x - 2) * size) && fits_i32((coord.x + 2) * size)
    &&& fits_i32((coord.y - 2) * size) && fits_i32((coord.y + 2) * size)
    &&& fits_i32((coord.z - 2) * size) && fits_i32((coord.z + 2) * size)
}

/// Half the size of a chunk, or zero for a chunk of one voxel.
pub open spec fn spec_midpoint(degree: u8) -> int {
    if degree > 0 {
        pow2((degree - 1) as nat) as int
    } else {
        0
    }
}

/// The origin of the chunk at `c` along one axis, and the positions of its
/// first and last voxel, fit 32 bits.
pub open spec fn axis_placeable(c: int, degree: u8) -> bool {
    let size = spec_chunk_size(degree);
    let mid = spec_midpoint(degree);
    fits_i32(c * size) && fits_i32(c * size - mid) && fits_i32(c * size + size - 1 - mid)
}

/// Every voxel of the chunk at `coord` has a position that fits 32 bits.
#[verifier::opaque]
pub open spec fn chunk_placeable(coord: IVec3, degree: u8) -> bool {
    axis_placeable(coord.x as int, degree) && axis_placeable(coord.y as int, degree)
        && axis_placeable(coord.z as int, degree)
}

/// A chunk of a single voxel can stand anywhere.
pub proof fn lemma_single_voxel_placeable(coord: IVec3)
    ensures
        chunk_placeable(coord, 0),
{
    reveal(chunk_placeable);
    vstd::arithmetic::power2::lemma2_to64();
    assert(spec_chunk_size(0) == 1);
    assert(coord.x * 1 == coord.x && coord.y * 1 == coord.y && coord.z * 1 == coord.z);
}

/// The origin of an addressable chunk, and the places two chunks before and
/// behind it, fit 32 bits.
pub proof fn lemma_addressable_bounds(coord: IVec3, degree: u8)
    requires
        degree <= MAX_DEGREE,
        chunk_addressable(coord, degree),
    ensures
        1 <= spec_chunk_size(degree) <= 1024,
        fits_i32(coord.x * spec_chunk_size(degree) - 2 * spec_chunk_size(degree)),
        fits_i32(coord.x * spec_chunk_size(degree) + 2 * spec_chunk_size(degree)),
        fits_i32(coord.y * spec_chunk_size(degree) - 2 * spec_chunk_size(degree)),
        fits_i32(coord.y * spec_chunk_size(degree) + 2 * spec_chunk_size(degree)),
        fits_i32(coord.z * spec_chunk_size(degree) - 2 * spec_chunk_size(degree)),
        fits_i32(coord.z * spec_chunk_size(degree) + 2 * spec_chunk_size(degree)),
{
    reveal(chunk_addressable);
    let size = spec_chunk_size(degree);
    vstd::arithmetic::power2::lemma2_to64();
    vstd::arithmetic::power2::lemma_pow2_pos(degree as nat);
    if degree < 10 {
        lemma_pow2_strictly_increases(degree as nat, 10);
    }
    lemma_addressable(coord.x as int, size);
    lemma_addressable(coord.y as int, size);
    lemma_addressable(coord.z as int, size);
}

/// An addressable chunk has room for its own voxels.
pub proof fn lemma_addressable_placeable(coord: IVec3, degree: u8)
    requires
        degree <= MAX_DEGREE,
        chunk_addressable(coord, degree),
    ensures
        chunk_placeable(coord, degree),
{
    reveal(chunk_placeable);
    reveal(chunk_addressable);
    let size = spec_chunk_size(degree);
    vstd::arithmetic::power2::lemma2_to64();
    vstd::arithmetic::power2::lemma_pow2_pos(degree as nat);
    if degree < 10 {
        lemma_pow2_strictly_increases(degree as nat, 10);
    }
    if degree > 0 {
        vstd::arithmetic::power2::lemma_pow2_unfold(degree as nat);
    }
    lemma_addressable(coord.x as int, size);
    lemma_addressable(coord.y as int, size);
    lemma_addressable(coord.z as int, size);
}

/// The corner number, in `zyx` bit order, of the chunk that an axis-wise
/// position of a voxel falls into: one bit for each axis on which the
/// position lies outside `[0, size)`.
pub open spec fn spec_wrap_bits(size: int, c: (int, int, int)) -> int {
    (if 0 <= c.0 < size {
        0int
    } else {
        1int
    }) + (if 0 <= c.1 < size {
        0int
    } else {
        2int
    }) + (if 0 <= c.2 < size {
        0int
    } else {
        4int
    })
}

/// Where the step `dir` from the voxel `coord` leads: the place, among the
/// positive directions, of the neighbouring chunk that is entered, and the
/// voxel within that chunk.
pub open spec fn spec_neighbor(size: int, coord: IVec3, dir: IVec3) -> (usize, IVec3) {
    let c = (coord.x + dir.x, coord.y + dir.y, coord.z + dir.z);
    (
        IDirection::spec_bitwise_to_dirs()[spec_wrap_bits(size, c)],
        IVec3 { x: (c.0 % size) as i32, y: (c.1 % size) as i32, z: (c.2 % size) as i32 },
    )
}

/// A step that stays inside the chunk enters no neighbour and lands on `coord + dir`.
pub proof fn lemma_neighbor_inside(size: int, coord: IVec3, dir: IVec3)
    requires
        size > 0,
        0 <= coord.x + dir.x < size,
        0 <= coord.y + dir.y < size,
        0 <= coord.z + dir.z < size,
        size <= i32::MAX,
    ensures
        spec_neighbor(size, coord, dir).0 == 0,
        spec_neighbor(size, coord, dir).1 == coord.spec_plus(dir),
{
    vstd::arithmetic::div_mod::lemma_small_mod((coord.x + dir.x) as nat, size as nat);
    vstd::arithmetic::div_mod::lemma_small_mod((coord.y + dir.y) as nat, size as nat);
    vstd::arithmetic::div_mod::lemma_small_mod((coord.z + dir.z) as nat, size as nat);
}

/// A cube of `2^degree` voxels per axis with its sparse tree of samples.
pub struct WorldChunk {
    pub coord: IVec3,
    pub degree: u8,
    pub midpoint: IVec3,
    pub sdftree: SDFOctree,
    /// The full grid of samples that the tree was built from, `x` running fastest.
    pub samples: Ghost<Seq<u8>>,
}

impl WorldChunk {
    /// Nodes are sampled down to this many levels above the finest grid.
    pub const MAX_RESOLUTION: u8 = 1;

    /// The number of voxels along one axis.
    pub fn size(&self) -> (size: usize)
        requires
            self.degree <= 21,
        ensures
            size == spec_chunk_size(self.degree),
            1 <= size <= 0x20_0000,
            self.degree <= MAX_DEGREE ==> size <= 1024,
    {
        proof {
            lemma_shl_pow2(self.degree as u64);
            vstd::arithmetic::power2::lemma2_to64();
            if self.degree < 10 {
                lemma_pow2_strictly_increases(self.degree as nat, 10);
            }
            if self.degree < 21 {
                lemma_pow2_strictly_increases(self.degree as nat, 21);
            }
            vstd::arithmetic::power2::lemma_pow2_pos(self.degree as nat);
        }
        (1u64 << self.degree) as usize
    }

    /// The place in the grid of the lower corner of the cube that `loc` names.
    fn grid_index(&self, loc: u64) -> (ind: usize)
        requires
            self.degree <= MAX_DEGREE,
            valid_loc(loc),
            spec_loc_degree(loc) <= self.degree,
        ensures
            ind == spec_coord2ind(spec_loc2coord(self.degree, loc), spec_chunk_size(self.degree)),
            0 <= ind < spec_grid_len(self.degree),
    {
        let coord = self.loc2coord(loc);
        let size = self.size();
        proof {
            lemma_coord2ind_bounds(coord, size as int);
            assert(size * size * size <= 1024 * 1024 * 1024) by (nonlinear_arith)
                requires
                    1 <= size <= 1024,
            ;
            assert((size - 1) * size <= 1024 * 1024) by (nonlinear_arith)
                requires
                    1 <= size <= 1024,
            ;
            assert(size * size <= 1024 * 1024) by (nonlinear_arith)
                requires
                    1 <= size <= 1024,
            ;
        }
        let row: usize = (coord.y as usize) + (coord.z as usize) * size;
        proof {
            assert(row * size <= size * size * size - size) by (nonlinear_arith)
                requires
                    row <= size * size - 1,
                    size >= 1,
            ;
        }
        (coord.x as usize) + row * size
    }

    /// Builds the nodes below `loc` and hands back the node of `loc` itself:
    /// each child is built in turn and stored where it is kept.
    pub fn _sample_df(&mut self, loc: u64, degree: u8, grid: &Vec<u8>) -> (node: SDFNode)
        requires
            old(self).degree <= MAX_DEGREE,
            valid_loc(loc),
            spec_loc_degree(loc) == degree,
            degree <= old(self).degree,
            grid@.len() == spec_grid_len(old(self).degree),
        ensures
            final(self).coord == old(self).coord,
            final(self).degree == old(self).degree,
            final(self).midpoint == old(self).midpoint,
            final(self).samples == old(self).samples,
            final(self).sdftree.depth == old(self).sdftree.depth,
            node == tree_node(old(self).degree, grid@, loc),
            forall|l: u64| #[trigger]
                final(self).sdftree@.contains_key(l) <==> old(self).sdftree@.contains_key(l)
                    || kept_below(old(self).degree, grid@, l, loc),
            forall|l: u64|
                kept_below(old(self).degree, grid@, l, loc) ==> #[trigger] final(self).sdftree@[l]
                    == tree_node(old(self).degree, grid@, l),
            forall|l: u64|
                old(self).sdftree@.contains_key(l) && !kept_below(old(self).degree, grid@, l, loc)
                    ==> #[trigger] final(self).sdftree@[l] == old(self).sdftree@[l],
        decreases old(self).degree - degree,
    {
        let ghost top = self.degree;
        let ghost fuel = (self.degree - degree) as nat;
        let ghost before = self.sdftree@;
        let value = grid[self.grid_index(loc)];
        let mut mask: u8 = 0;
        if self.degree - degree >= Self::MAX_RESOLUTION {
            proof {
                lemma_child_loc(loc, 0);
                lemma_child_loc(loc, 7);
            }
            let base: u64 = loc << 3;
            assert(base == 8 * loc) by (bit_vector)
                requires
                    base == loc << 3,
                    8 * loc + 7 <= u64::MAX,
            ;
            proof {
                assert forall|l: u64| spec_below(l, loc) implies 0 <= spec_branch(l, loc) by {
                    lemma_below_larger(l, loc);
                }
            }
            let mut d: u8 = 0;
            while d < 8
                invariant
                    d <= 8,
                    top == old(self).degree,
                    top <= MAX_DEGREE,
                    fuel == top - degree,
                    fuel >= 1,
                    before == old(self).sdftree@,
                    self.coord == old(self).coord,
                    self.degree == old(self).degree,
                    self.midpoint == old(self).midpoint,
                    self.samples == old(self).samples,
                    self.sdftree.depth == old(self).sdftree.depth,
                    valid_loc(loc),
                    spec_loc_degree(loc) == degree,
                    base == 8 * loc,
                    8 * loc + 7 <= u64::MAX,
                    grid@.len() == spec_grid_len(top),
                    value == grid_value(top, grid@, loc),
                    mask == tree_mask(top, grid@, loc, fuel, d as nat),
                    forall|l: u64| #[trigger]
                        self.sdftree@.contains_key(l) <==> before.contains_key(l) || (kept_below(
                            top,
                            grid@,
                            l,
                            loc,
                        ) && spec_branch(l, loc) < d),
                    forall|l: u64|
                        kept_below(top, grid@, l, loc) && spec_branch(l, loc) < d
                            ==> #[trigger] self.sdftree@[l] == tree_node(top, grid@, l),
                    forall|l: u64|
                        before.contains_key(l) && !(kept_below(top, grid@, l, loc) && spec_branch(
                            l,
                            loc,
                        ) < d) ==> #[trigger] self.sdftree@[l] == before[l],
                decreases 8 - d,
            {
                let child_no: u64 = d as u64;
                assert(base | child_no == base + child_no) by (bit_vector)
                    requires
                        base == 8 * loc,
                        8 * loc + 7 <= u64::MAX,
                        child_no < 8,
                ;
                let child_loc: u64 = base | child_no;
                proof {
                    lemma_child_loc(loc, d as int);
                }
                let ghost mid = self.sdftree@;
                let child = self._sample_df(child_loc, degree + 1, grid);
                let ghost after = self.sdftree@;
                let keep = child.mask != 0 || child.value != value;
                assert(keep == tree_keeps(top, grid@, child_loc, (fuel - 1) as nat));
                if keep {
                    self.sdftree.insert(child_loc, child);
                    mask = mask | (1u8 << d);
                }
                proof {
                    assert forall|l: u64|
                        (kept_below(top, grid@, l, loc) && spec_branch(l, loc) == d) == ((l
                            == child_loc && keep) || kept_below(top, grid@, l, child_loc)) by {
                        lemma_below_child(l, loc, d as int);
                        if spec_below(l, child_loc) {
                            lemma_below_larger(l, child_loc);
                        }
                    }
                    assert forall|l: u64| #[trigger]
                        self.sdftree@.contains_key(l) <==> before.contains_key(l) || (kept_below(
                            top,
                            grid@,
                            l,
                            loc,
                        ) && spec_branch(l, loc) < d + 1) by {
                        assert(after.contains_key(l) <==> mid.contains_key(l) || kept_below(
                            top,
                            grid@,
                            l,
                            child_loc,
                        ));
                    }
                    assert forall|l: u64|
                        kept_below(top, grid@, l, loc) && spec_branch(l, loc) < d + 1
                            implies #[trigger] self.sdftree@[l] == tree_node(top, grid@, l) by {
                        if l != child_loc || !keep {
                            if kept_below(top, grid@, l, child_loc) {
                                assert(after[l] == tree_node(top, grid@, l));
                            } else {
                                assert(mid.contains_key(l));
                                assert(after[l] == mid[l]);
                            }
                        }
                    }
                    assert forall|l: u64|
                        before.contains_key(l) && !(kept_below(top, grid@, l, loc) && spec_branch(
                            l,
                            loc,
                        ) < d + 1) implies #[trigger] self.sdftree@[l] == before[l] by {
                        assert(mid.contains_key(l));
                        assert(after[l] == mid[l]);
                    }
                }
                d += 1;
            }
            proof {
                assert forall|l: u64| spec_below(l, loc) implies spec_branch(l, loc) < 8 by {
                    lemma_below_larger(l, loc);
                }
            }
        } else {
            proof {
                assert forall|l: u64| !kept_below(top, grid@, l, loc) by {
                    if spec_below(l, loc) && valid_loc(l) {
                        lemma_below_larger(l, loc);
                        lemma_deeper_loc(l, loc);
                    }
                }
            }
        }
        OctreeNode { mask, value }
    }

    /// The sample of the voxel `coord` in the grid that the tree was built from.
    pub open spec fn spec_sample(&self, coord: IVec3) -> u8 {
        self.samples@[spec_coord2ind(coord, spec_chunk_size(self.degree))]
    }

    /// The lattice position of the voxel `coord`: the chunk is centred on its origin.
    pub open spec fn spec_coord2pos(&self, coord: IVec3) -> IVec3 {
        let size = spec_chunk_size(self.degree);
        IVec3 {
            x: (coord.x - self.midpoint.x + self.coord.x * size) as i32,
            y: (coord.y - self.midpoint.y + self.coord.y * size) as i32,
            z: (coord.z - self.midpoint.z + self.coord.z * size) as i32,
        }
    }

    /// What holds of a chunk whatever its tree: its degree, its midpoint and its place.
    pub open spec fn wf_frame(&self) -> bool {
        &&& self.degree <= MAX_DEGREE
        &&& self.sdftree.depth == self.degree
        &&& self.midpoint == (IVec3 {
            x: spec_midpoint(self.degree) as i32,
            y: spec_midpoint(self.degree) as i32,
            z: spec_midpoint(self.degree) as i32,
        })
        &&& chunk_placeable(self.coord, self.degree)
    }

    /// The tree holds exactly the root and the kept nodes of the grid of samples.
    pub open spec fn wf(&self) -> bool {
        &&& self.wf_frame()
        &&& self.samples@.len() == spec_grid_len(self.degree)
        &&& forall|l: u64| #[trigger]
            self.sdftree@.contains_key(l) <==> tree_has(self.degree, self.samples@, l)
        &&& forall|l: u64|
            tree_has(self.degree, self.samples@, l) ==> #[trigger] self.sdftree@[l] == tree_node(
                self.degree,
                self.samples@,
                l,
            )
    }

    /// The bounds that follow from a chunk being addressable.
    pub proof fn lemma_frame_bounds(&self)
        requires
            self.wf_frame(),
        ensures
            1 <= spec_chunk_size(self.degree) <= 1024,
            0 <= spec_midpoint(self.degree) < spec_chunk_size(self.degree),
            fits_i32(self.coord.x * spec_chunk_size(self.degree)),
            fits_i32(self.coord.y * spec_chunk_size(self.degree)),
            fits_i32(self.coord.z * spec_chunk_size(self.degree)),
            axis_placeable(self.coord.x as int, self.degree),
            axis_placeable(self.coord.y as int, self.degree),
            axis_placeable(self.coord.z as int, self.degree),
    {
        reveal(chunk_placeable);
        vstd::arithmetic::power2::lemma2_to64();
        vstd::arithmetic::power2::lemma_pow2_pos(self.degree as nat);
        if self.degree < 10 {
            lemma_pow2_strictly_increases(self.degree as nat, 10);
        }
        if self.degree > 0 {
            vstd::arithmetic::power2::lemma_pow2_unfold(self.degree as nat);
        }
    }

    /// The lattice position of the voxel `coord`.
    pub fn coord2pos(&self, coord: IVec3) -> (pos: IVec3)
        requires
            self.wf_frame(),
            coord.within(0, spec_chunk_size(self.degree)),
        ensures
            pos == self.spec_coord2pos(coord),
            pos.x == coord.x - self.midpoint.x + self.coord.x * spec_chunk_size(self.degree),
            pos.y == coord.y - self.midpoint.y + self.coord.y * spec_chunk_size(self.degree),
            pos.z == coord.z - self.midpoint.z + self.coord.z * spec_chunk_size(self.degree),
    {
        proof {
            self.lemma_frame_bounds();
        }
        let size: i32 = self.size() as i32;
        let offset = self.coord.scaled(size);
        coord.minus(self.midpoint).plus(offset)
    }

    /// Asks the field for the sample at the lower corner of the cube that `loc` names.
    pub fn sample_df_value<F: Fn(IVec3) -> u8>(&self, loc: u64, df: &F) -> (v: u8)
        requires
            self.wf_frame(),
            valid_loc(loc),
            spec_loc_degree(loc) <= self.degree,
            forall|p: IVec3| call_requires(df, (p,)),
        ensures
            call_ensures(df, (self.spec_coord2pos(spec_loc2coord(self.degree, loc)),), v),
    {
        let coord = self.loc2coord(loc);
        let pos = self.coord2pos(coord);
        df(pos)
    }

    /// Asks the field for the sample of every voxel, `x` running fastest.
    fn sample_grid<F: Fn(IVec3) -> u8>(&self, df: &F) -> (grid: Vec<u8>)
        requires
            self.wf_frame(),
            forall|p: IVec3| call_requires(df, (p,)),
        ensures
            grid@.len() == spec_grid_len(self.degree),
            forall|c: IVec3|
                c.within(0, spec_chunk_size(self.degree)) ==> call_ensures(
                    df,
                    (self.spec_coord2pos(c),),
                    #[trigger] grid@[spec_coord2ind(c, spec_chunk_size(self.degree))],
                ),
    {
        let size = self.size();
        let ghost n = size as int;
        let mut grid: Vec<u8> = Vec::new();
        let mut k: usize = 0;
        while k < size
            invariant
                self.wf_frame(),
                forall|p: IVec3| call_requires(df, (p,)),
                n == size == spec_chunk_size(self.degree),
                1 <= n <= 1024,
                k <= size,
                grid@.len() == k * n * n,
                forall|c: IVec3|
                    c.within(0, n) && c.z < k ==> call_ensures(
                        df,
                        (self.spec_coord2pos(c),),
                        #[trigger] grid@[spec_coord2ind(c, n)],
                    ),
            decreases size - k,
        {
            let mut j: usize = 0;
            while j < size
                invariant
                    self.wf_frame(),
                    forall|p: IVec3| call_requires(df, (p,)),
                    n == size == spec_chunk_size(self.degree),
                    1 <= n <= 1024,
                    k < size,
                    j <= size,
                    grid@.len() == (j + k * n) * n,
                    forall|c: IVec3|
                        c.within(0, n) && (c.z < k || (c.z == k && c.y < j)) ==> call_ensures(
                            df,
                            (self.spec_coord2pos(c),),
                            #[trigger] grid@[spec_coord2ind(c, n)],
                        ),
                decreases size - j,
            {
                let mut i: usize = 0;
                while i < size
                    invariant
                        self.wf_frame(),
                        forall|p: IVec3| call_requires(df, (p,)),
                        n == size == spec_chunk_size(self.degree),
                        1 <= n <= 1024,
                        k < size,
                        j < size,
                        i <= size,
                        grid@.len() == i + (j + k * n) * n,
                        forall|c: IVec3|
                            c.within(0, n) && (c.z < k || (c.z == k && (c.y < j || (c.y == j && c.x
                                < i)))) ==> call_ensures(
                                df,
                                (self.spec_coord2pos(c),),
                                #[trigger] grid@[spec_coord2ind(c, n)],
                            ),
                    decreases size - i,
                {
                    let coord = IVec3 { x: i as i32, y: j as i32, z: k as i32 };
                    let pos = self.coord2pos(coord);
                    let v = df(pos);
                    let ghost prev = grid@;
                    grid.push(v);
                    proof {
                        assert forall|c: IVec3|
                            c.within(0, n) && (c.z < k || (c.z == k && (c.y < j || (c.y == j && c.x
                                < i + 1)))) implies call_ensures(
                            df,
                            (self.spec_coord2pos(c),),
                            #[trigger] grid@[spec_coord2ind(c, n)],
                        ) by {
                            if c == coord {
                                assert(spec_coord2ind(c, n) == prev.len());
                            } else {
                                lemma_row_major_order(c, coord, n);
                                assert(grid@[spec_coord2ind(c, n)] == prev[spec_coord2ind(c, n)]);
                            }
                        }
                    }
                    i += 1;
                }
                proof {
                    assert(size + (j + k * n) * n == (j + 1 + k * n) * n) by (nonlinear_arith)
                        requires
                            size == n,
                    ;
                }
                j += 1;
            }
            proof {
                assert((size + k * n) * n == (k + 1) * n * n) by (nonlinear_arith)
                    requires
                        size == n,
                ;
            }
            k += 1;
        }
        proof {
            assert(size * n * n == n * n * n) by (nonlinear_arith)
                requires
                    size == n,
            ;
        }
        grid
    }

    /// Every valid code other than the root names a node below the root.
    pub proof fn lemma_below_root(l: u64)
        requires
            valid_loc(l),
            l != 1,
        ensures
            spec_below(l, 1),
        decreases l,
    {
        if spec_loc_degree(l) == 0 {
            lemma_degree_zero(l);
        } else {
            lemma_parent_loc(l);
            if l / 8 != 1 {
                Self::lemma_below_root(l / 8);
            }
        }
    }

    /// Samples the field over the whole chunk and builds the tree, unless the
    /// node `loc` is stored already.
    pub fn sample_df<F: Fn(IVec3) -> u8>(&mut self, loc: u64, df: &F)
        requires
            old(self).wf_frame(),
            forall|p: IVec3| call_requires(df, (p,)),
            old(self).sdftree@.contains_key(loc) ==> old(self).wf(),
            !old(self).sdftree@.contains_key(loc) ==> loc == 1 && old(self).sdftree@
                =~= Map::<u64, SDFNode>::empty(),
        ensures
            final(self).wf(),
            final(self).coord == old(self).coord,
            final(self).degree == old(self).degree,
            old(self).sdftree@.contains_key(loc) ==> *final(self) == *old(self),
            !old(self).sdftree@.contains_key(loc) ==> forall|c: IVec3|
                c.within(0, spec_chunk_size(final(self).degree)) ==> call_ensures(
                    df,
                    (final(self).spec_coord2pos(c),),
                    #[trigger] final(self).spec_sample(c),
                ),
    {
        if self.sdftree.contains_key(&loc) {
            return ;
        }
        proof {
            lemma_root_loc();
        }
        let degree: u8 = (21 - (loc.leading_zeros() + 1) / 3) as u8;
        let grid = self.sample_grid(df);
        self.samples = Ghost(grid@);
        let node = self._sample_df(loc, degree, &grid);
        self.sdftree.insert(loc, node);
        proof {
            assert forall|l: u64| #[trigger]
                self.sdftree@.contains_key(l) <==> tree_has(self.degree, self.samples@, l) by {
                if valid_loc(l) && l != 1 {
                    Self::lemma_below_root(l);
                }
            }
            assert forall|l: u64|
                tree_has(self.degree, self.samples@, l) implies #[trigger] self.sdftree@[l]
                == tree_node(self.degree, self.samples@, l) by {
                if l != 1 {
                    Self::lemma_below_root(l);
                }
            }
        }
    }

    /// A fresh chunk at `chunk_coord` with the tree of the samples that `df`
    /// gives on its grid. A chunk of a single voxel can stand anywhere; a
    /// larger one where the positions of its voxels fit 32 bits. The degree
    /// is at most `MAX_DEGREE`, so that the voxels, each sampled once, can
    /// be counted in a `usize` of 32 bits.
    pub fn new<F: Fn(IVec3) -> u8>(chunk_coord: IVec3, degree: u8, df: &F) -> (chunk: Self)
        requires
            degree <= MAX_DEGREE,
            degree == 0 || chunk_placeable(chunk_coord, degree),
            forall|p: IVec3| call_requires(df, (p,)),
        ensures
            chunk.wf(),
            chunk.coord == chunk_coord,
            chunk.degree == degree,
            forall|c: IVec3|
                c.within(0, spec_chunk_size(degree)) ==> call_ensures(
                    df,
                    (chunk.spec_coord2pos(c),),
                    #[trigger] chunk.spec_sample(c),
                ),
            degree == 0 ==> {
                &&& chunk.midpoint == (IVec3 { x: 0, y: 0, z: 0 })
                &&& forall|l: u64| chunk.sdftree@.contains_key(l) <==> l == 1
                &&& chunk.sdftree@[1].mask == 0
                &&& call_ensures(df, (chunk_coord,), chunk.sdftree@[1].value)
            },
    {
        let sdftree = SDFOctree::new(degree);
        proof {
            if degree > 0 {
                lemma_shl_pow2((degree - 1) as u64);
                lemma_pow2_strictly_increases((degree - 1) as nat, 10);
            } else {
                lemma_single_voxel_placeable(chunk_coord);
            }
            vstd::arithmetic::power2::lemma2_to64();
        }
        let mp_ax: i32 = if degree > 0 {
            (1u64 << (degree - 1)) as i32
        } else {
            0
        };
        let midpoint = ivec3(mp_ax, mp_ax, mp_ax);
        let mut ret = WorldChunk {
            coord: chunk_coord,
            degree,
            midpoint,
            sdftree,
            samples: Ghost(Seq::empty()),
        };
        ret.sample_df(1, df);
        proof {
            if degree == 0 {
                ret.lemma_single_voxel();
                let zero = IVec3 { x: 0, y: 0, z: 0 };
                vstd::arithmetic::power2::lemma2_to64();
                assert(zero.within(0, spec_chunk_size(degree)));
                assert(call_ensures(df, (ret.spec_coord2pos(zero),), ret.spec_sample(zero)));
            }
        }
        ret
    }

    /// A chunk of a single voxel has a tree of a single node: the root, without children.
    pub proof fn lemma_single_voxel(&self)
        requires
            self.wf(),
            self.degree == 0,
        ensures
            forall|l: u64| self.sdftree@.contains_key(l) <==> l == 1,
            self.sdftree@[1].mask == 0,
            self.sdftree@[1].value == self.spec_sample(IVec3 { x: 0, y: 0, z: 0 }),
            self.midpoint == (IVec3 { x: 0, y: 0, z: 0 }),
            self.spec_coord2pos(IVec3 { x: 0, y: 0, z: 0 }) == self.coord,
    {
        lemma_root_loc();
        vstd::arithmetic::power2::lemma2_to64();
        assert(spec_chunk_size(0) == 1);
        assert(spec_loc2coord(0, 1) == (IVec3 { x: 0, y: 0, z: 0 })) by {
            lemma_root_loc();
            vstd::arithmetic::power2::lemma2_to64();
            let body = crate::world::morton::spec_loc_body(1);
            assert(body == 0);
            assert(crate::world::morton::compact3(body, 0) == 0);
            assert(crate::world::morton::compact3(body / 2, 0) == 0);
            assert(crate::world::morton::compact3(body / 4, 0) == 0);
            assert(pow2(0) == 1);
            assert(0 * pow2(0) == 0);
        }
        assert(self.coord.x * 1 == self.coord.x && self.coord.y * 1 == self.coord.y && self.coord.z
            * 1 == self.coord.z);
        assert(tree_has(self.degree, self.samples@, 1));
        assert forall|l: u64| self.sdftree@.contains_key(l) <==> l == 1 by {
            if self.sdftree@.contains_key(l) {
                assert(tree_has(self.degree, self.samples@, l));
                lemma_degree_zero(l);
            }
        }
    }

    /// The nearest stored node at or above `l` holds the sample at the corner of `l`.
    pub proof fn lemma_nearest_sample(&self, l: u64)
        requires
            self.wf(),
            valid_loc(l),
            spec_loc_degree(l) <= self.degree,
        ensures
            self.sdftree.spec_nearest(l) is Some,
            self.sdftree@.contains_key(self.sdftree.spec_nearest(l).unwrap()),
            self.sdftree@[self.sdftree.spec_nearest(l).unwrap()].value == grid_value(
                self.degree,
                self.samples@,
                l,
            ),
        decreases l,
    {
        lemma_root_loc();
        assert(tree_has(self.degree, self.samples@, 1));
        assert(self.sdftree@.contains_key(1));
        if self.sdftree@.contains_key(l) {
            assert(tree_has(self.degree, self.samples@, l));
        } else {
            assert(!tree_has(self.degree, self.samples@, l));
            if spec_loc_degree(l) == 0 {
                lemma_degree_zero(l);
            }
            lemma_parent_loc(l);
            self.lemma_nearest_sample(l / 8);
        }
    }

    /// The sample of the voxel `coord`, read from the tree.
    pub fn get_voxel_by_coord(&self, coord: IVec3) -> (v: u8)
        requires
            self.wf(),
            coord.within(0, spec_chunk_size(self.degree)),
        ensures
            v == self.spec_sample(coord),
    {
        let loc = self.coord2loc(coord);
        proof {
            lemma_coord2loc_valid(self.degree, coord);
            lemma_morton_round_trip(self.degree, coord);
            self.lemma_nearest_sample(loc);
        }
        let node = self.sdftree.get_node_or_parent(loc);
        node.value
    }

    /// For each direction, the neighbouring chunk that the step from `coord`
    /// enters and the voxel it lands on there.
    pub fn neighbor_coords(&self, coord: IVec3, dirs: &[IVec3]) -> (ret: Vec<(usize, IVec3)>)
        requires
            self.degree <= 21,
            forall|i: int| 0 <= i < dirs@.len() ==> coord.can_plus(#[trigger] dirs@[i]),
        ensures
            ret@.len() == dirs@.len(),
            forall|i: int|
                0 <= i < dirs@.len() ==> #[trigger] ret@[i] == spec_neighbor(
                    spec_chunk_size(self.degree),
                    coord,
                    dirs@[i],
                ),
            forall|i: int|
                0 <= i < dirs@.len() ==> (#[trigger] ret@[i]).0 < 8 && ret@[i].1.within(
                    0,
                    spec_chunk_size(self.degree),
                ),
    {
        let chunk_size: i32 = self.size() as i32;
        let table = IDirection::bitwise_to_dirs();
        let mut ret: Vec<(usize, IVec3)> = Vec::with_capacity(dirs.len());
        let mut i: usize = 0;
        while i < dirs.len()
            invariant
                i <= dirs@.len(),
                chunk_size == spec_chunk_size(self.degree),
                1 <= chunk_size <= 0x20_0000,
                table@ == IDirection::spec_bitwise_to_dirs(),
                forall|i: int| 0 <= i < dirs@.len() ==> coord.can_plus(#[trigger] dirs@[i]),
                ret@.len() == i,
                forall|k: int|
                    0 <= k < i ==> #[trigger] ret@[k] == spec_neighbor(
                        chunk_size as int,
                        coord,
                        dirs@[k],
                    ),
                forall|k: int|
                    0 <= k < i ==> (#[trigger] ret@[k]).0 < 8 && ret@[k].1.within(
                        0,
                        chunk_size as int,
                    ),
            decreases dirs@.len() - i,
        {
            let dir = dirs[i];
            let mut coord_cur = coord.plus(dir);
            let mut dir_ind: usize = 0;
            if coord_cur.x >= chunk_size || coord_cur.x < 0 {
                dir_ind = dir_ind + 1;
                coord_cur.x = positive_modulo(coord_cur.x, chunk_size);
            }
            if coord_cur.y >= chunk_size || coord_cur.y < 0 {
                dir_ind = dir_ind + 2;
                coord_cur.y = positive_modulo(coord_cur.y, chunk_size);
            }
            if coord_cur.z >= chunk_size || coord_cur.z < 0 {
                dir_ind = dir_ind + 4;
                coord_cur.z = positive_modulo(coord_cur.z, chunk_size);
            }
            proof {
                let n = chunk_size as int;
                let c = (coord.x + dir.x, coord.y + dir.y, coord.z + dir.z);
                if 0 <= c.0 < n {
                    vstd::arithmetic::div_mod::lemma_small_mod(c.0 as nat, n as nat);
                }
                if 0 <= c.1 < n {
                    vstd::arithmetic::div_mod::lemma_small_mod(c.1 as nat, n as nat);
                }
                if 0 <= c.2 < n {
                    vstd::arithmetic::div_mod::lemma_small_mod(c.2 as nat, n as nat);
                }
                assert(dir_ind == spec_wrap_bits(n, c));
            }
            // from the bits of the wrapped axes to the place among the positive directions
            let place = table[dir_ind];
            ret.push((place, coord_cur));
            i += 1;
        }
        ret
    }

    /// For each direction, the signed sample of the voxel that the step from
    /// `coord` lands on: read from the neighbouring chunk that is entered, or
    /// from this chunk where that neighbour is missing.
    pub fn neighbor_dist(
        &self,
        coord: IVec3,
        dirs: &[IVec3],
        neighbors: &Vec<Option<&WorldChunk>>,
    ) -> (dists: Vec<i32>)
        requires
            self.wf(),
            forall|i: int| 0 <= i < dirs@.len() ==> coord.can_plus(#[trigger] dirs@[i]),
            forall|i: int|
                0 <= i < dirs@.len() ==> spec_neighbor(
                    spec_chunk_size(self.degree),
                    coord,
                    #[trigger] dirs@[i],
                ).0 < neighbors@.len(),
            forall|k: int|
                0 <= k < neighbors@.len() && (#[trigger] neighbors@[k]) is Some ==> neighbors@[k].unwrap().wf()
                    && neighbors@[k].unwrap().degree == self.degree,
        ensures
            dists@.len() == dirs@.len(),
            forall|i: int|
                0 <= i < dirs@.len() ==> #[trigger] dists@[i] == self.spec_neighbor_dist(
                    coord,
                    dirs@[i],
                    neighbors@,
                ),
            forall|i: int| 0 <= i < dirs@.len() ==> -128 <= #[trigger] dists@[i] <= 127,
    {
        let n_coords = self.neighbor_coords(coord, dirs);
        let mut dists: Vec<i32> = Vec::with_capacity(dirs.len());
        let mut i: usize = 0;
        while i < n_coords.len()
            invariant
                self.wf(),
                i <= n_coords@.len(),
                n_coords@.len() == dirs@.len(),
                forall|k: int|
                    0 <= k < dirs@.len() ==> #[trigger] n_coords@[k] == spec_neighbor(
                        spec_chunk_size(self.degree),
                        coord,
                        dirs@[k],
                    ),
                forall|k: int|
                    0 <= k < dirs@.len() ==> (#[trigger] n_coords@[k]).0 < neighbors@.len()
                        && n_coords@[k].1.within(0, spec_chunk_size(self.degree)),
                forall|k: int|
                    0 <= k < neighbors@.len() && (#[trigger] neighbors@[k]) is Some
                        ==> neighbors@[k].unwrap().wf() && neighbors@[k].unwrap().degree
                        == self.degree,
                dists@.len() == i,
                forall|k: int|
                    0 <= k < i ==> #[trigger] dists@[k] == self.spec_neighbor_dist(
                        coord,
                        dirs@[k],
                        neighbors@,
                    ),
                forall|k: int| 0 <= k < i ==> -128 <= #[trigger] dists@[k] <= 127,
            decreases n_coords@.len() - i,
        {
            let dir_ind = n_coords[i].0;
            let chunk = neighbors[dir_ind];
            let n_coord = n_coords[i].1;
            let sample: u8 = match chunk {
                None => self.get_voxel_by_coord(n_coord),
                Some(chunk) => chunk.get_voxel_by_coord(n_coord),
            };
            dists.push(sample as i32 - 128);
            i += 1;
        }
        dists
    }

    /// The signed sample that the step `dir` from `coord` lands on.
    pub open spec fn spec_neighbor_dist(
        &self,
        coord: IVec3,
        dir: IVec3,
        neighbors: Seq<Option<&WorldChunk>>,
    ) -> int {
        let step = spec_neighbor(spec_chunk_size(self.degree), coord, dir);
        match neighbors[step.0 as int] {
            None => self.spec_sample(step.1) - 128,
            Some(chunk) => chunk.spec_sample(step.1) - 128,
        }
    }

    /// The neighbours are in order and of the same degree as this chunk.
    pub open spec fn neighbors_ok(&self, neighbors: Seq<Option<&WorldChunk>>) -> bool {
        forall|k: int|
            0 <= k < neighbors.len() && (#[trigger] neighbors[k]) is Some ==> neighbors[k].unwrap().wf()
                && neighbors[k].unwrap().degree == self.degree
    }

    /// The signed samples at the eight corners of the voxel `coord`, in the
    /// order of the positive directions; corners beyond the chunk are read
    /// from the neighbours.
    pub open spec fn spec_corners(
        &self,
        coord: IVec3,
        neighbors: Seq<Option<&WorldChunk>>,
    ) -> Seq<i32> {
        Seq::new(
            8,
            |i: int|
                self.spec_neighbor_dist(coord, IDirection::spec_positive_dirs()[i], neighbors) as i32,
        )
    }

    /// A step of at most one along each axis enters one of the eight chunks
    /// that the positive directions name.
    pub proof fn lemma_neighbor_place(size: int, coord: IVec3, dir: IVec3)
        ensures
            spec_neighbor(size, coord, dir).0 < 8,
            coord.within(0, size) && ((dir.y == 0 && dir.z == 0) || (dir.x == 0 && dir.z == 0) || (
            dir.x == 0 && dir.y == 0)) ==> spec_neighbor(size, coord, dir).0 < 4,
    {
        let c = (coord.x + dir.x, coord.y + dir.y, coord.z + dir.z);
        let bits = spec_wrap_bits(size, c);
        assert(0 <= bits < 8);
        let table = IDirection::spec_bitwise_to_dirs();
        assert(table[0] == 0 && table[1] == 1 && table[2] == 2 && table[3] == 4 && table[4] == 3
            && table[5] == 5 && table[6] == 6 && table[7] == 7);
    }

    /// The surface point of the voxel `coord`, where the surface crosses one
    /// of its edges.
    pub fn surface_point(&self, coord: IVec3, neighbors: &Vec<Option<&WorldChunk>>) -> (sp: Option<SurfacePoint>)
        requires
            self.wf(),
            coord.within(0, spec_chunk_size(self.degree)),
            neighbors@.len() == 8,
            self.neighbors_ok(neighbors@),
        ensures
            sp is Some <==> crossing_count(self.spec_corners(coord, neighbors@), 12) > 0,
            sp is Some ==> sp.unwrap().corners@ == self.spec_corners(coord, neighbors@)
                && sp.unwrap().wf(),
    {
        let dirs = IDirection::positive_dirs();
        proof {
            self.lemma_frame_bounds();
            assert forall|i: int| 0 <= i < dirs@.len() implies coord.can_plus(#[trigger] dirs@[i])
                && spec_neighbor(spec_chunk_size(self.degree), coord, dirs@[i]).0
                < neighbors@.len() by {
                Self::lemma_neighbor_place(spec_chunk_size(self.degree), coord, dirs@[i]);
            }
        }
        let dists = self.neighbor_dist(coord, &dirs, neighbors);
        let corners: [i32; 8] = [
            dists[0],
            dists[1],
            dists[2],
            dists[3],
            dists[4],
            dists[5],
            dists[6],
            dists[7],
        ];
        assert(corners@ =~= self.spec_corners(coord, neighbors@));
        let count = count_crossings(&corners);
        if count > 0 {
            Some(SurfacePoint { corners })
        } else {
            None
        }
    }

    /// `tree` holds the surface points of this chunk: one childless node at
    /// the code of every voxel that the surface crosses, with the samples at
    /// the voxel's corners, and nothing else.
    pub open spec fn is_surface_of(
        &self,
        tree: SurfaceOctree,
        neighbors: Seq<Option<&WorldChunk>>,
    ) -> bool {
        &&& tree.depth == self.degree
        &&& forall|l: u64| #[trigger]
            tree@.contains_key(l) <==> valid_loc(l) && spec_loc_degree(l) == self.degree
                && crossing_count(
                self.spec_corners(spec_loc2coord(self.degree, l), neighbors),
                12,
            ) > 0
        &&& forall|l: u64| #[trigger]
            tree@.contains_key(l) ==> tree@[l].mask == 0 && tree@[l].value.wf()
                && tree@[l].value.corners@ == self.spec_corners(
                spec_loc2coord(self.degree, l),
                neighbors,
            )
    }

    /// Every sample of the chunk lies on the side `above` of the surface:
    /// above it, or on and below it.
    pub open spec fn one_sided(&self, above: bool) -> bool {
        forall|c: IVec3|
            c.within(0, spec_chunk_size(self.degree)) ==> (#[trigger] self.spec_sample(c) > 128)
                == above
    }

    /// Every sample on the face of the chunk that is entered by the step
    /// `dir` from the chunk before it lies on the side `above` of the
    /// surface; for the step zero that is every sample of the chunk.
    pub open spec fn face_sided(&self, dir: IVec3, above: bool) -> bool {
        forall|c: IVec3|
            c.within(0, spec_chunk_size(self.degree)) && (dir.x == 1 ==> c.x == 0) && (dir.y == 1
                ==> c.y == 0) && (dir.z == 1 ==> c.z == 0) ==> (#[trigger] self.spec_sample(c)
                > 128) == above
    }

    /// A step of at most one forward along each axis lands, in the chunk
    /// that it enters, on the face toward the chunk that it left.
    pub proof fn lemma_neighbor_face(size: int, coord: IVec3, dir: IVec3)
        requires
            0 < size <= i32::MAX,
            coord.within(0, size),
            0 <= dir.x <= 1,
            0 <= dir.y <= 1,
            0 <= dir.z <= 1,
        ensures
            ({
                let step = spec_neighbor(size, coord, dir);
                let toward = IDirection::spec_positive_dirs()[step.0 as int];
                &&& step.0 < 8
                &&& 0 <= step.1.x < size && 0 <= step.1.y < size && 0 <= step.1.z < size
                &&& toward.x == 1 ==> step.1.x == 0
                &&& toward.y == 1 ==> step.1.y == 0
                &&& toward.z == 1 ==> step.1.z == 0
            }),
    {
        let c = (coord.x + dir.x, coord.y + dir.y, coord.z + dir.z);
        let bits = spec_wrap_bits(size, c);
        assert(0 <= bits < 8);
        let table = IDirection::spec_bitwise_to_dirs();
        assert(table[0] == 0 && table[1] == 1 && table[2] == 2 && table[3] == 4 && table[4] == 3
            && table[5] == 5 && table[6] == 6 && table[7] == 7);
        vstd::arithmetic::div_mod::lemma_mod_bound(c.0, size);
        vstd::arithmetic::div_mod::lemma_mod_bound(c.1, size);
        vstd::arithmetic::div_mod::lemma_mod_bound(c.2, size);
        vstd::arithmetic::div_mod::lemma_mod_self_0(size);
        let dirs = IDirection::spec_positive_dirs();
        assert(dirs[0].x == 0 && dirs[0].y == 0 && dirs[0].z == 0);
        assert(dirs[1].x == 1 && dirs[1].y == 0 && dirs[1].z == 0);
        assert(dirs[2].x == 0 && dirs[2].y == 1 && dirs[2].z == 0);
        assert(dirs[3].x == 0 && dirs[3].y == 0 && dirs[3].z == 1);
        assert(dirs[4].x == 1 && dirs[4].y == 1 && dirs[4].z == 0);
        assert(dirs[5].x == 1 && dirs[5].y == 0 && dirs[5].z == 1);
        assert(dirs[6].x == 0 && dirs[6].y == 1 && dirs[6].z == 1);
        assert(dirs[7].x == 1 && dirs[7].y == 1 && dirs[7].z == 1);
    }

    /// Where every sample of a chunk lies on one side of the surface, and so
    /// does every sample on the near face of each neighbour that it has, as
    /// in a uniform field, the chunk has no surface point.
    pub proof fn lemma_one_side_no_surface(
        &self,
        tree: SurfaceOctree,
        neighbors: Seq<Option<&WorldChunk>>,
        above: bool,
    )
        requires
            self.degree <= 21,
            neighbors.len() == 8,
            self.is_surface_of(tree, neighbors),
            self.one_sided(above),
            forall|k: int|
                0 <= k < 8 && (#[trigger] neighbors[k]) is Some ==> neighbors[k].unwrap().degree
                    == self.degree && neighbors[k].unwrap().face_sided(
                    IDirection::spec_positive_dirs()[k],
                    above,
                ),
        ensures
            tree@ =~= Map::<u64, crate::octree::SurfaceNode>::empty(),
    {
        let size = spec_chunk_size(self.degree);
        vstd::arithmetic::power2::lemma_pow2_pos(self.degree as nat);
        vstd::arithmetic::power2::lemma_pow2_strictly_increases(self.degree as nat, 22);
        vstd::arithmetic::power2::lemma2_to64();
        assert forall|l: u64| !tree@.contains_key(l) by {
            if valid_loc(l) && spec_loc_degree(l) == self.degree {
                let c = spec_loc2coord(self.degree, l);
                Self::lemma_leaf_loc(self.degree, l);
                let corners = self.spec_corners(c, neighbors);
                assert forall|i: int| 0 <= i < 8 implies (#[trigger] corners[i] > 0) == above by {
                    let dir = IDirection::spec_positive_dirs()[i];
                    Self::lemma_neighbor_face(size, c, dir);
                    let step = spec_neighbor(size, c, dir);
                    assert(step.1.within(0, size));
                    match neighbors[step.0 as int] {
                        None => {
                            assert((self.spec_sample(step.1) > 128) == above);
                        },
                        Some(chunk) => {
                            assert((chunk.spec_sample(step.1) > 128) == above);
                        },
                    }
                }
                crate::octree::lemma_one_side_no_crossing(corners, above);
            }
        }
    }

    /// A code of the full degree is the code of the voxel that it names.
    pub proof fn lemma_leaf_loc(degree: u8, l: u64)
        requires
            degree <= 21,
            valid_loc(l),
            spec_loc_degree(l) == degree,
        ensures
            spec_loc2coord(degree, l).within(0, spec_chunk_size(degree)),
            spec_coord2loc(degree, spec_loc2coord(degree, l)) == l,
    {
        lemma_locational_prefix(degree, l);
        vstd::arithmetic::power2::lemma2_to64();
        assert(l * 1 == l);
    }

    /// Extracts the surface points of the whole chunk, voxel by voxel.
    pub fn surface_tree(&self, neighbors: &Vec<Option<&WorldChunk>>) -> (tree: SurfaceOctree)
        requires
            self.wf(),
            neighbors@.len() == 8,
            self.neighbors_ok(neighbors@),
        ensures
            self.is_surface_of(tree, neighbors@),
    {
        let size = self.size();
        let ghost n = size as int;
        proof {
            assert(size * size * size <= 1024 * 1024 * 1024) by (nonlinear_arith)
                requires
                    1 <= size <= 1024,
            ;
            assert(size * size <= 1024 * 1024) by (nonlinear_arith)
                requires
                    1 <= size <= 1024,
            ;
        }
        let total: usize = size * size * size;
        let mut sptree = SurfaceOctree::new(self.degree);
        let mut at: usize = 0;
        proof {
            assert forall|l: u64|
                valid_loc(l) && spec_loc_degree(l) == self.degree implies 0 <= spec_coord2ind(
                spec_loc2coord(self.degree, l),
                n,
            ) by {
                Self::lemma_leaf_loc(self.degree, l);
                lemma_coord2ind_bounds(spec_loc2coord(self.degree, l), n);
            }
        }
        while at < total
            invariant
                self.wf(),
                neighbors@.len() == 8,
                self.neighbors_ok(neighbors@),
                n == size == spec_chunk_size(self.degree),
                1 <= n <= 1024,
                total == n * n * n,
                total <= 0x4000_0000,
                at <= total,
                sptree.depth == self.degree,
                forall|l: u64| #[trigger]
                    sptree@.contains_key(l) <==> valid_loc(l) && spec_loc_degree(l) == self.degree
                        && spec_coord2ind(spec_loc2coord(self.degree, l), n) < at && crossing_count(
                        self.spec_corners(spec_loc2coord(self.degree, l), neighbors@),
                        12,
                    ) > 0,
                forall|l: u64| #[trigger]
                    sptree@.contains_key(l) ==> sptree@[l].mask == 0 && sptree@[l].value.wf()
                        && sptree@[l].value.corners@ == self.spec_corners(
                        spec_loc2coord(self.degree, l),
                        neighbors@,
                    ),
            decreases total - at,
        {
            let coord = ind2coord(at as i32, size as i32);
            let sp = self.surface_point(coord, neighbors);
            let loc = self.coord2loc(coord);
            let ghost before = sptree@;
            proof {
                lemma_coord2loc_valid(self.degree, coord);
                lemma_morton_round_trip(self.degree, coord);
            }
            match sp {
                Some(sp) => {
                    sptree.insert_value(loc, sp);
                },
                None => {},
            }
            proof {
                assert forall|l: u64| #[trigger]
                    sptree@.contains_key(l) <==> valid_loc(l) && spec_loc_degree(l) == self.degree
                        && spec_coord2ind(spec_loc2coord(self.degree, l), n) < at + 1
                        && crossing_count(
                        self.spec_corners(spec_loc2coord(self.degree, l), neighbors@),
                        12,
                    ) > 0 by {
                    if valid_loc(l) && spec_loc_degree(l) == self.degree {
                        Self::lemma_leaf_loc(self.degree, l);
                        let c = spec_loc2coord(self.degree, l);
                        if spec_coord2ind(c, n) == at {
                            lemma_coord2ind_injective(c, coord, n);
                        }
                    }
                }
            }
            at += 1;
        }
        proof {
            assert forall|l: u64| #[trigger]
                sptree@.contains_key(l) <==> valid_loc(l) && spec_loc_degree(l) == self.degree
                    && crossing_count(
                    self.spec_corners(spec_loc2coord(self.degree, l), neighbors@),
                    12,
                ) > 0 by {
                if valid_loc(l) && spec_loc_degree(l) == self.degree {
                    Self::lemma_leaf_loc(self.degree, l);
                    lemma_coord2ind_bounds(spec_loc2coord(self.degree, l), n);
                }
            }
        }
        sptree
    }
}

/// The bounds on one axis that follow from a chunk being addressable.
proof fn lemma_addressable(c: int, size: int)
    by (nonlinear_arith)
    requires
        1 <= size <= 1024,
        fits_i32((c - 2) * size),
        fits_i32((c + 2) * size),
    ensures
        fits_i32(c * size),
        fits_i32(c * size - 2 * size),
        fits_i32(c * size + 2 * size),
{
}

/// In a row-major grid a voxel that comes earlier has a smaller place.
proof fn lemma_row_major_order(a: IVec3, b: IVec3, n: int)
    requires
        n > 0,
        a.within(0, n),
        b.within(0, n),
        a.z < b.z || (a.z == b.z && (a.y < b.y || (a.y == b.y && a.x < b.x))),
    ensures
        0 <= spec_coord2ind(a, n) < spec_coord2ind(b, n),
{
    lemma_coord2ind_bounds(a, n);
    let ra = a.y + a.z * n;
    let rb = b.y + b.z * n;
    assert(ra <= rb) by (nonlinear_arith)
        requires
            a.z < b.z || (a.z == b.z && a.y <= b.y),
            0 <= a.y < n,
            0 <= b.y < n,
            ra == a.y + a.z * n,
            rb == b.y + b.z * n,
    ;
    if ra < rb {
        assert(a.x + ra * n < b.x + rb * n) by (nonlinear_arith)
            requires
                ra < rb,
                0 <= a.x < n,
                0 <= b.x < n,
        ;
    } else {
        assert(a.z == b.z && a.y == b.y) by (nonlinear_arith)
            requires
                a.y + a.z * n == b.y + b.z * n,
                0 <= a.y < n,
                0 <= b.y < n,
        ;
    }
}

} // verus!
