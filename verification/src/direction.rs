//! The fixed direction and edge tables of the voxel cube.
use crate::math::IVec3;
use vstd::prelude::*;

verus! {

/// One step against an axis.
pub const M: i32 = -1;

/// Namespace of the integer direction tables.
pub struct IDirection;

impl IDirection {
    pub open spec fn spec_zero() -> IVec3 {
        IVec3 { x: 0, y: 0, z: 0 }
    }

    /// The corners of the unit cube: origin, the three axes, the three face
    /// diagonals `x+y`, `x+z`, `y+z`, and the space diagonal.
    pub open spec fn spec_positive_dirs() -> Seq<IVec3> {
        seq![
            IVec3 { x: 0, y: 0, z: 0 },
            IVec3 { x: 1, y: 0, z: 0 },
            IVec3 { x: 0, y: 1, z: 0 },
            IVec3 { x: 0, y: 0, z: 1 },
            IVec3 { x: 1, y: 1, z: 0 },
            IVec3 { x: 1, y: 0, z: 1 },
            IVec3 { x: 0, y: 1, z: 1 },
            IVec3 { x: 1, y: 1, z: 1 },
        ]
    }

    /// The mirror image of the positive directions.
    pub open spec fn spec_negative_dirs() -> Seq<IVec3> {
        seq![
            IVec3 { x: 0, y: 0, z: 0 },
            IVec3 { x: M, y: 0, z: 0 },
            IVec3 { x: 0, y: M, z: 0 },
            IVec3 { x: 0, y: 0, z: M },
            IVec3 { x: M, y: M, z: 0 },
            IVec3 { x: M, y: 0, z: M },
            IVec3 { x: 0, y: M, z: M },
            IVec3 { x: M, y: M, z: M },
        ]
    }

    /// The origin and the three positive axes.
    pub open spec fn spec_unit_dirs() -> Seq<IVec3> {
        seq![
            IVec3 { x: 0, y: 0, z: 0 },
            IVec3 { x: 1, y: 0, z: 0 },
            IVec3 { x: 0, y: 1, z: 0 },
            IVec3 { x: 0, y: 0, z: 1 },
        ]
    }

    /// The twelve cube edges as pairs of corner numbers.
    pub open spec fn spec_edge_inds() -> Seq<(usize, usize)> {
        seq![
            (0usize, 1usize),
            (0usize, 2usize),
            (0usize, 3usize),
            (1usize, 4usize),
            (1usize, 5usize),
            (2usize, 4usize),
            (2usize, 6usize),
            (3usize, 5usize),
            (3usize, 6usize),
            (4usize, 7usize),
            (5usize, 7usize),
            (6usize, 7usize),
        ]
    }

    /// The four edges parallel to the x axis.
    pub open spec fn spec_edge_inds_x() -> Seq<(usize, usize)> {
        seq![(0usize, 1usize), (2usize, 4usize), (3usize, 5usize), (6usize, 7usize)]
    }

    /// The four edges parallel to the y axis.
    pub open spec fn spec_edge_inds_y() -> Seq<(usize, usize)> {
        seq![(0usize, 2usize), (1usize, 4usize), (3usize, 6usize), (5usize, 7usize)]
    }

    /// The four edges parallel to the z axis.
    pub open spec fn spec_edge_inds_z() -> Seq<(usize, usize)> {
        seq![(0usize, 3usize), (1usize, 5usize), (2usize, 6usize), (4usize, 7usize)]
    }

    /// From a corner number in `zyx` bit order to its place among the positive directions.
    pub open spec fn spec_bitwise_to_dirs() -> Seq<usize> {
        seq![0usize, 1usize, 2usize, 4usize, 3usize, 5usize, 6usize, 7usize]
    }

    /// For each positive axis, the three negative directions whose surface
    /// points close the quad across that axis.
    pub open spec fn spec_sfp_inds() -> Seq<(usize, usize, usize)> {
        seq![(3usize, 6usize, 2usize), (1usize, 5usize, 3usize), (2usize, 4usize, 1usize)]
    }

    pub fn zero() -> (v: IVec3)
        ensures
            v == Self::spec_zero(),
    {
        IVec3 { x: 0, y: 0, z: 0 }
    }

    pub fn positive_dirs() -> (dirs: [IVec3; 8])
        ensures
            dirs@ == Self::spec_positive_dirs(),
    {
        let dirs = [
            IVec3 { x: 0, y: 0, z: 0 },
            IVec3 { x: 1, y: 0, z: 0 },
            IVec3 { x: 0, y: 1, z: 0 },
            IVec3 { x: 0, y: 0, z: 1 },
            IVec3 { x: 1, y: 1, z: 0 },
            IVec3 { x: 1, y: 0, z: 1 },
            IVec3 { x: 0, y: 1, z: 1 },
            IVec3 { x: 1, y: 1, z: 1 },
        ];
        assert(dirs@ =~= Self::spec_positive_dirs());
        dirs
    }

    pub fn negative_dirs() -> (dirs: [IVec3; 8])
        ensures
            dirs@ == Self::spec_negative_dirs(),
    {
        let dirs = [
            IVec3 { x: 0, y: 0, z: 0 },
            IVec3 { x: -1, y: 0, z: 0 },
            IVec3 { x: 0, y: -1, z: 0 },
            IVec3 { x: 0, y: 0, z: -1 },
            IVec3 { x: -1, y: -1, z: 0 },
            IVec3 { x: -1, y: 0, z: -1 },
            IVec3 { x: 0, y: -1, z: -1 },
            IVec3 { x: -1, y: -1, z: -1 },
        ];
        assert(dirs@ =~= Self::spec_negative_dirs());
        dirs
    }

    pub fn unit_dirs() -> (dirs: [IVec3; 4])
        ensures
            dirs@ == Self::spec_unit_dirs(),
    {
        let dirs = [
            IVec3 { x: 0, y: 0, z: 0 },
            IVec3 { x: 1, y: 0, z: 0 },
            IVec3 { x: 0, y: 1, z: 0 },
            IVec3 { x: 0, y: 0, z: 1 },
        ];
        assert(dirs@ =~= Self::spec_unit_dirs());
        dirs
    }

    pub fn edge_inds() -> (edges: [(usize, usize); 12])
        ensures
            edges@ == Self::spec_edge_inds(),
    {
        let edges = [
            (0usize, 1usize),
            (0usize, 2usize),
            (0usize, 3usize),
            (1usize, 4usize),
            (1usize, 5usize),
            (2usize, 4usize),
            (2usize, 6usize),
            (3usize, 5usize),
            (3usize, 6usize),
            (4usize, 7usize),
            (5usize, 7usize),
            (6usize, 7usize),
        ];
        assert(edges@ =~= Self::spec_edge_inds());
        edges
    }

    pub fn edge_inds_x() -> (edges: [(usize, usize); 4])
        ensures
            edges@ == Self::spec_edge_inds_x(),
    {
        let edges = [(0usize, 1usize), (2usize, 4usize), (3usize, 5usize), (6usize, 7usize)];
        assert(edges@ =~= Self::spec_edge_inds_x());
        edges
    }

    pub fn edge_inds_y() -> (edges: [(usize, usize); 4])
        ensures
            edges@ == Self::spec_edge_inds_y(),
    {
        let edges = [(0usize, 2usize), (1usize, 4usize), (3usize, 6usize), (5usize, 7usize)];
        assert(edges@ =~= Self::spec_edge_inds_y());
        edges
    }

    pub fn edge_inds_z() -> (edges: [(usize, usize); 4])
        ensures
            edges@ == Self::spec_edge_inds_z(),
    {
        let edges = [(0usize, 3usize), (1usize, 5usize), (2usize, 6usize), (4usize, 7usize)];
        assert(edges@ =~= Self::spec_edge_inds_z());
        edges
    }

    pub fn bitwise_to_dirs() -> (table: [usize; 8])
        ensures
            table@ == Self::spec_bitwise_to_dirs(),
    {
        let table = [0usize, 1usize, 2usize, 4usize, 3usize, 5usize, 6usize, 7usize];
        assert(table@ =~= Self::spec_bitwise_to_dirs());
        table
    }

    pub fn sfp_inds() -> (table: [(usize, usize, usize); 3])
        ensures
            table@ == Self::spec_sfp_inds(),
    {
        let table = [(3usize, 6usize, 2usize), (1usize, 5usize, 3usize), (2usize, 4usize, 1usize)];
        assert(table@ =~= Self::spec_sfp_inds());
        table
    }

    /// Every edge joins a corner to the corner one step further along one axis,
    /// and the three per-axis tables list exactly the edges along their axis.
    pub proof fn lemma_edges_are_axis_steps()
        ensures
            forall|e: int|
                0 <= e < 12 ==> {
                    let a = Self::spec_positive_dirs()[(#[trigger] Self::spec_edge_inds()[e]).0 as int];
                    let b = Self::spec_positive_dirs()[Self::spec_edge_inds()[e].1 as int];
                    (b.x - a.x) + (b.y - a.y) + (b.z - a.z) == 1 && b.x >= a.x && b.y >= a.y && b.z
                        >= a.z
                },
            forall|e: int|
                0 <= e < 4 ==> {
                    let a = Self::spec_positive_dirs()[(#[trigger] Self::spec_edge_inds_x()[e]).0 as int];
                    let b = Self::spec_positive_dirs()[Self::spec_edge_inds_x()[e].1 as int];
                    b.x == a.x + 1 && b.y == a.y && b.z == a.z
                },
            forall|e: int|
                0 <= e < 4 ==> {
                    let a = Self::spec_positive_dirs()[(#[trigger] Self::spec_edge_inds_y()[e]).0 as int];
                    let b = Self::spec_positive_dirs()[Self::spec_edge_inds_y()[e].1 as int];
                    b.x == a.x && b.y == a.y + 1 && b.z == a.z
                },
            forall|e: int|
                0 <= e < 4 ==> {
                    let a = Self::spec_positive_dirs()[(#[trigger] Self::spec_edge_inds_z()[e]).0 as int];
                    let b = Self::spec_positive_dirs()[Self::spec_edge_inds_z()[e].1 as int];
                    b.x == a.x && b.y == a.y && b.z == a.z + 1
                },
    {
    }

    /// The corner with the bits `b = x + 2y + 4z` stands at place
    /// `spec_bitwise_to_dirs()[b]` among the positive directions.
    pub proof fn lemma_bitwise_to_dirs()
        ensures
            forall|b: int|
                0 <= b < 8 ==> {
                    let d = Self::spec_positive_dirs()[(#[trigger] Self::spec_bitwise_to_dirs()[b]) as int];
                    d.x == b % 2 && d.y == (b / 2) % 2 && d.z == b / 4
                },
            forall|i: int|
                0 <= i < 8 ==> {
                    let p = #[trigger] Self::spec_positive_dirs()[i];
                    let n = Self::spec_negative_dirs()[i];
                    n.x == -p.x && n.y == -p.y && n.z == -p.z
                },
    {
    }
}

} // verus!
