//! The indexed triangle list of one chunk.
use crate::hasher::keys_equal;
use crate::hasher::SeaHashKey;
use crate::hasher::SeaHashMap;
use crate::math::coord2key;
use crate::math::lemma_coord2key;
use crate::math::spec_coord2key;
use crate::math::IVec3;
use crate::octree::SurfacePoint;
use vstd::prelude::*;

verus! {

/// The number of indices that a mesh can hold.
pub const MAX_INDEX: usize = 3072;

/// The number of vertices that a mesh can hold.
pub const MAX_VERTS: usize = 512;

/// One vertex of a mesh: the surface point of a voxel, and the place of that
/// voxel on the lattice of the whole world.
#[derive(Clone, Copy, Debug)]
pub struct MeshVertex {
    pub voxel: IVec3,
    pub point: SurfacePoint,
}

/// A vertex that a triangle asks for: the origin of the chunk that holds the
/// voxel, the voxel within that chunk, and its surface point.
pub type Corner = (IVec3, IVec3, SurfacePoint);

/// The mathematical content of a mesh.
pub struct MeshModel {
    /// The indices in use, three for each triangle.
    pub inds: Seq<u32>,
    /// The vertices in use.
    pub verts: Seq<MeshVertex>,
    /// The number of the vertex of each voxel that has one, by the key of the voxel.
    pub index: Map<SeaHashKey, usize>,
}

impl MeshModel {
    pub open spec fn empty() -> MeshModel {
        MeshModel { inds: Seq::empty(), verts: Seq::empty(), index: Map::empty() }
    }

    /// The place of the voxel of a corner on the lattice of the world.
    pub open spec fn corner_voxel(corner: Corner) -> IVec3 {
        corner.0.spec_plus(corner.1)
    }

    /// The mesh with one more index: that of the vertex of the corner's
    /// voxel, which becomes a new vertex where the voxel has none yet.
    pub open spec fn add_corner(self, corner: Corner) -> MeshModel {
        let voxel = Self::corner_voxel(corner);
        let key = spec_coord2key(voxel);
        if self.index.contains_key(key) {
            MeshModel { inds: self.inds.push(self.index[key] as u32), ..self }
        } else {
            MeshModel {
                inds: self.inds.push(self.verts.len() as u32),
                verts: self.verts.push(MeshVertex { voxel, point: corner.2 }),
                index: self.index.insert(key, self.verts.len() as usize),
            }
        }
    }

    /// The mesh with the triangle `a`, `b`, `c` added, whatever its size.
    #[verifier::opaque]
    pub open spec fn with_triangle(self, a: Corner, b: Corner, c: Corner) -> MeshModel {
        self.add_corner(a).add_corner(b).add_corner(c)
    }

    /// The mesh has room for the triangle `a`, `b`, `c`.
    pub open spec fn fits(self, a: Corner, b: Corner, c: Corner) -> bool {
        self.inds.len() + 2 < MAX_INDEX && self.with_triangle(a, b, c).verts.len() <= MAX_VERTS
    }

    /// The mesh after the triangles that `corners` lists from number `from`
    /// on were added in turn; the first triangle that does not fit ends the
    /// adding.
    pub open spec fn add_positions(self, corners: Seq<Corner>, from: int) -> MeshModel
        decreases corners.len() - from,
    {
        if from < 0 || from + 3 > corners.len() {
            self
        } else if !self.fits(corners[from], corners[from + 1], corners[from + 2]) {
            self
        } else {
            self.with_triangle(corners[from], corners[from + 1], corners[from + 2]).add_positions(
                corners,
                from + 3,
            )
        }
    }

    /// Every index names a vertex in use; the vertex table lists vertices
    /// in use under the keys of their voxels; and the sizes are within the
    /// capacity.
    pub open spec fn wf(self) -> bool {
        &&& self.inds.len() <= MAX_INDEX
        &&& self.verts.len() <= MAX_VERTS
        &&& forall|i: int| 0 <= i < self.inds.len() ==> #[trigger] self.inds[i] < self.verts.len()
        &&& forall|k: SeaHashKey| #[trigger]
            self.index.contains_key(k) ==> self.index[k] < self.verts.len() && spec_coord2key(
                self.verts[self.index[k] as int].voxel,
            ) == k
        &&& forall|i: int|
            0 <= i < self.verts.len() ==> self.index.contains_key(
                spec_coord2key(#[trigger] self.verts[i].voxel),
            ) && self.index[spec_coord2key(self.verts[i].voxel)] == i
    }

    /// Adding a corner keeps a mesh in order, if there is room.
    pub proof fn lemma_add_corner(self, corner: Corner)
        requires
            self.wf(),
            self.inds.len() < MAX_INDEX,
            self.add_corner(corner).verts.len() <= MAX_VERTS,
        ensures
            self.add_corner(corner).wf(),
            self.add_corner(corner).inds.len() == self.inds.len() + 1,
            self.verts.len() <= self.add_corner(corner).verts.len() <= self.verts.len() + 1,
    {
        let after = self.add_corner(corner);
        let voxel = Self::corner_voxel(corner);
        let key = spec_coord2key(voxel);
        if !self.index.contains_key(key) {
            assert forall|k: SeaHashKey| #[trigger] after.index.contains_key(k) implies after.index[k]
                < after.verts.len() && spec_coord2key(after.verts[after.index[k] as int].voxel)
                == k by {
                if k != key {
                    assert(self.index.contains_key(k));
                }
            }
            assert forall|i: int| 0 <= i < after.verts.len() implies after.index.contains_key(
                spec_coord2key(#[trigger] after.verts[i].voxel),
            ) && after.index[spec_coord2key(after.verts[i].voxel)] == i by {
                if i < self.verts.len() {
                    assert(self.index.contains_key(spec_coord2key(self.verts[i].voxel)));
                }
            }
        }
    }

    /// No two vertices in use stand for the same voxel.
    pub proof fn lemma_vertices_distinct(self, i: int, j: int)
        requires
            self.wf(),
            0 <= i < self.verts.len(),
            0 <= j < self.verts.len(),
            self.verts[i].voxel == self.verts[j].voxel,
        ensures
            i == j,
    {
        let k = spec_coord2key(self.verts[i].voxel);
        assert(self.index.contains_key(k));
    }
}

/// An indexed triangle list of fixed capacity.
pub struct IndexedMesh {
    /// The indices; those from `next_ind` on are zero.
    pub inds: [u32; 3072],
    /// The vertices; those from `next_vert` on are not in use.
    pub verts: [MeshVertex; 512],
    /// The number of the vertex of each voxel that has one, by the key of the voxel.
    pub vert_index: SeaHashMap<SeaHashKey, usize>,
    pub next_ind: usize,
    pub next_vert: usize,
}

impl View for IndexedMesh {
    type V = MeshModel;

    open spec fn view(&self) -> MeshModel {
        MeshModel {
            inds: self.inds@.subrange(0, self.next_ind as int),
            verts: self.verts@.subrange(0, self.next_vert as int),
            index: self.vert_index@,
        }
    }
}

impl IndexedMesh {
    pub open spec fn wf(&self) -> bool {
        &&& self.next_ind <= MAX_INDEX
        &&& self.next_vert <= MAX_VERTS
        &&& forall|i: int| self.next_ind <= i < MAX_INDEX ==> #[trigger] self.inds@[i] == 0
        &&& self@.wf()
    }

    /// An empty mesh.
    pub fn new() -> (mesh: Self)
        ensures
            mesh.wf(),
            mesh@ == MeshModel::empty(),
    {
        let unused = MeshVertex {
            voxel: IVec3 { x: 0, y: 0, z: 0 },
            point: SurfacePoint { corners: [0, 0, 0, 0, 0, 0, 0, 0] },
        };
        let mesh = IndexedMesh {
            inds: [0u32; 3072],
            verts: [unused; 512],
            vert_index: SeaHashMap::new(),
            next_ind: 0,
            next_vert: 0,
        };
        proof {
            assert(mesh@.inds =~= Seq::<u32>::empty());
            assert(mesh@.verts =~= Seq::<MeshVertex>::empty());
        }
        mesh
    }

    /// Whether the mesh holds no triangle.
    pub fn is_empty(&self) -> (empty: bool)
        requires
            self.wf(),
        ensures
            empty == (self@.inds.len() == 0),
    {
        self.next_ind == 0
    }

    /// Adds one corner of a triangle that is known to fit.
    fn add_corner(&mut self, corner: &Corner)
        requires
            old(self).wf(),
            corner.0.can_plus(corner.1),
            old(self).next_ind < MAX_INDEX,
            old(self)@.add_corner(*corner).verts.len() <= MAX_VERTS,
        ensures
            final(self).wf(),
            final(self)@ == old(self)@.add_corner(*corner),
    {
        let ghost model = self@;
        let voxel = corner.0.plus(corner.1);
        let vkey = coord2key(voxel);
        proof {
            model.lemma_add_corner(*corner);
        }
        match self.vert_index.get(&vkey) {
            None => {
                self.vert_index.insert(vkey, self.next_vert);
                self.inds[self.next_ind] = self.next_vert as u32;
                self.verts[self.next_vert] = MeshVertex { voxel, point: corner.2 };
                self.next_vert += 1;
            },
            Some(vi) => {
                let vi: usize = *vi;
                self.inds[self.next_ind] = vi as u32;
            },
        }
        self.next_ind += 1;
        proof {
            assert(self@.inds =~= model.add_corner(*corner).inds);
            assert(self@.verts =~= model.add_corner(*corner).verts);
        }
    }

    /// How many new vertices the triangle needs.
    fn fresh_vertices(&self, a: &Corner, b: &Corner, c: &Corner) -> (need: usize)
        requires
            self.wf(),
            a.0.can_plus(a.1),
            b.0.can_plus(b.1),
            c.0.can_plus(c.1),
        ensures
            self@.with_triangle(*a, *b, *c).verts.len() == self@.verts.len() + need,
            need <= 3,
    {
        reveal(MeshModel::with_triangle);
        let ka = coord2key(a.0.plus(a.1));
        let kb = coord2key(b.0.plus(b.1));
        let kc = coord2key(c.0.plus(c.1));
        let mut need: usize = 0;
        if !self.vert_index.contains_key(&ka) {
            need += 1;
        }
        if !self.vert_index.contains_key(&kb) && !keys_equal(&kb, &ka) {
            need += 1;
        }
        if !self.vert_index.contains_key(&kc) && !keys_equal(&kc, &ka) && !keys_equal(&kc, &kb) {
            need += 1;
        }
        need
    }

    /// Adds the triangle `a`, `b`, `c` where it fits, and tells whether it did.
    pub fn add_triangle(&mut self, a: &Corner, b: &Corner, c: &Corner) -> (added: bool)
        requires
            old(self).wf(),
            a.0.can_plus(a.1),
            b.0.can_plus(b.1),
            c.0.can_plus(c.1),
        ensures
            final(self).wf(),
            added == old(self)@.fits(*a, *b, *c),
            added ==> final(self)@ == old(self)@.with_triangle(*a, *b, *c),
            !added ==> final(self)@ == old(self)@,
    {
        if self.next_ind + 2 >= MAX_INDEX {
            return false;
        }
        let need = self.fresh_vertices(a, b, c);
        if self.next_vert + need > MAX_VERTS {
            return false;
        }
        let ghost model = self@;
        proof {
            reveal(MeshModel::with_triangle);
            let m1 = model.add_corner(*a);
            let m2 = m1.add_corner(*b);
            assert(m1.verts.len() <= m2.verts.len());
            assert(m2.verts.len() <= model.with_triangle(*a, *b, *c).verts.len());
        }
        self.add_corner(a);
        self.add_corner(b);
        self.add_corner(c);
        true
    }

    /// Adds the triangles that `verts` lists, three corners each. A corner
    /// whose voxel has a vertex already shares it. The first triangle that
    /// does not fit ends the adding: it and those after it are dropped.
    pub fn add_positions(&mut self, verts: &[Corner])
        requires
            old(self).wf(),
            forall|i: int| 0 <= i < verts@.len() ==> (#[trigger] verts@[i]).0.can_plus(verts@[i].1),
        ensures
            final(self).wf(),
            final(self)@ == old(self)@.add_positions(verts@, 0),
    {
        let mut i: usize = 0;
        while verts.len() - i >= 3
            invariant
                self.wf(),
                i <= verts@.len(),
                forall|i: int|
                    0 <= i < verts@.len() ==> (#[trigger] verts@[i]).0.can_plus(verts@[i].1),
                self@.add_positions(verts@, i as int) == old(self)@.add_positions(verts@, 0),
            decreases verts@.len() - i,
        {
            let ghost model = self@;
            let added = self.add_triangle(&verts[i], &verts[i + 1], &verts[i + 2]);
            if !added {
                return ;
            }
            i += 3;
        }
    }

    /// The indices of the whole capacity, each raised by `offset`: the number
    /// of the first vertex of the slot that the mesh is written to.
    pub fn index_array(&self, offset: u32) -> (ret: Vec<u32>)
        requires
            self.wf(),
            offset + MAX_VERTS <= u32::MAX,
        ensures
            ret@.len() == MAX_INDEX,
            forall|i: int| 0 <= i < self@.inds.len() ==> #[trigger] ret@[i] == offset + self@.inds[i],
            forall|i: int| self@.inds.len() <= i < MAX_INDEX ==> #[trigger] ret@[i] == offset,
    {
        let ghost model = self@;
        let mut ret: Vec<u32> = Vec::with_capacity(MAX_INDEX);
        let mut i: usize = 0;
        proof {
            assert forall|k: int| 0 <= k < MAX_INDEX implies #[trigger] self.inds@[k] <= MAX_VERTS by {
                if k < self.next_ind {
                    assert(self@.inds[k] == self.inds@[k]);
                }
            }
        }
        while i < MAX_INDEX
            invariant
                self.wf(),
                offset + MAX_VERTS <= u32::MAX,
                i <= MAX_INDEX,
                ret@.len() == i,
                forall|k: int| 0 <= k < i ==> #[trigger] ret@[k] == offset + self.inds@[k],
                forall|k: int| 0 <= k < MAX_INDEX ==> #[trigger] self.inds@[k] <= MAX_VERTS,
            decreases MAX_INDEX - i,
        {
            ret.push(offset + self.inds[i]);
            i += 1;
        }
        ret
    }
}

} // verus!
