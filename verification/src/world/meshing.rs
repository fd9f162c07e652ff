//! From the surface points of a chunk and of the chunks around it to its
//! indexed mesh.
use crate::direction::IDirection;
use crate::hasher::SeaHashKey;
use crate::math::ind2coord;
use crate::math::is_intersection;
use crate::math::spec_is_intersection;
use crate::math::IVec3;
use crate::octree::SurfaceOctree;
use crate::octree::SurfacePoint;
use crate::render::mesh::Corner;
use crate::render::mesh::IndexedMesh;
use crate::render::mesh::MeshModel;
use crate::world::chunk::spec_neighbor;
use crate::world::chunk::WorldChunk;
use crate::world::manager::chunk_keyable;
use crate::world::manager::ChunkManager;
use crate::world::morton::lemma_coord2loc_valid;
use crate::world::morton::spec_chunk_size;
use crate::world::morton::spec_coord2loc;
use vstd::prelude::*;

verus! {

/// The two triangles that close the surface across positive axis `s` at a
/// voxel: the voxel's own point `z` and the points `a`, `b`, `c` of three
/// voxels behind it, wound by the side on which the sample rises. None
/// where the samples at the voxel and one step along the axis lie on the same
/// side of the surface, or where one of the four points is missing.
pub open spec fn spec_quad(s: int, dists: Seq<i32>, sfps: Seq<Option<Corner>>) -> Option<Seq<Corner>> {
    let inds = IDirection::spec_sfp_inds()[s];
    let own = sfps[0];
    let first = sfps[inds.0 as int];
    let second = sfps[inds.1 as int];
    let third = sfps[inds.2 as int];
    if spec_is_intersection(dists[0] as int, dists[s + 1] as int) && own is Some && first is Some
        && second is Some && third is Some {
        let z = own.unwrap();
        let a = first.unwrap();
        let b = second.unwrap();
        let c = third.unwrap();
        if dists[s + 1] > dists[0] {
            Some(seq![z, a, b, z, b, c])
        } else {
            Some(seq![z, b, a, z, c, b])
        }
    } else {
        None
    }
}

/// The mesh after the quads of the first `n` positive axes at one voxel were added.
pub open spec fn spec_voxel_mesh(
    mesh: MeshModel,
    dists: Seq<i32>,
    sfps: Seq<Option<Corner>>,
    n: nat,
) -> MeshModel
    decreases n,
{
    if n == 0 {
        mesh
    } else {
        let before = spec_voxel_mesh(mesh, dists, sfps, (n - 1) as nat);
        match spec_quad(n - 1, dists, sfps) {
            Some(quad) => before.add_positions(quad, 0),
            None => before,
        }
    }
}

/// The voxel at a place of the grid lies in the grid.
proof fn lemma_place_in_grid(at: int, n: int)
    requires
        0 < n <= i32::MAX,
        0 <= at < n * n * n,
    ensures
        crate::math::spec_ind2coord(at, n).within(0, n),
{
    let row = at / n;
    vstd::arithmetic::div_mod::lemma_fundamental_div_mod(at, n);
    vstd::arithmetic::div_mod::lemma_mod_bound(at, n);
    vstd::arithmetic::div_mod::lemma_fundamental_div_mod(row, n);
    vstd::arithmetic::div_mod::lemma_mod_bound(row, n);
    assert(0 <= row < n * n) by (nonlinear_arith)
        requires
            at == n * row + at % n,
            0 <= at % n < n,
            0 <= at < n * n * n,
            n > 0,
    ;
    assert(0 <= row / n < n) by (nonlinear_arith)
        requires
            row == n * (row / n) + row % n,
            0 <= row % n < n,
            0 <= row < n * n,
            n > 0,
    ;
}

impl ChunkManager {
    pub fn has_surface_map(&self, chunk_coord: IVec3) -> (has: bool)
        requires
            chunk_keyable(self.chunk_size, chunk_coord),
        ensures
            has == self.surface_maps@.contains_key(self.key_of(chunk_coord)),
    {
        let chunk_key = self.chunk_coord2key(chunk_coord);
        self.surface_maps.contains_key(&chunk_key)
    }

    /// The surface of the chunk at `chunk_coord`, which the caller knows to be stored.
    pub fn get_surface_map(&self, chunk_coord: IVec3) -> (map: &SurfaceOctree)
        requires
            chunk_keyable(self.chunk_size, chunk_coord),
            self.surface_maps@.contains_key(self.key_of(chunk_coord)),
        ensures
            *map == self.surface_maps@[self.key_of(chunk_coord)],
    {
        let chunk_key = self.chunk_coord2key(chunk_coord);
        self.surface_maps.index(&chunk_key)
    }

    /// The surface point of the voxel `coord` of the chunk at `chunk_coord`,
    /// where the surface of that chunk is stored and crosses the voxel.
    pub open spec fn spec_sfp(&self, chunk_coord: IVec3, degree: u8, coord: IVec3) -> Option<SurfacePoint> {
        let key = self.key_of(chunk_coord);
        let loc = spec_coord2loc(degree, coord) as u64;
        if self.surface_maps@.contains_key(key) && self.surface_maps@[key]@.contains_key(loc) {
            Some(self.surface_maps@[key]@[loc].value)
        } else {
            None
        }
    }

    /// The surface point of the voxel `coord` of `chunk`, if it has one.
    pub fn get_sfp_by_coord(&self, chunk: &WorldChunk, coord: IVec3) -> (sfp: Option<SurfacePoint>)
        requires
            chunk.degree <= 21,
            chunk_keyable(self.chunk_size, chunk.coord),
            coord.within(0, spec_chunk_size(chunk.degree)),
        ensures
            sfp == self.spec_sfp(chunk.coord, chunk.degree, coord),
    {
        if !self.has_surface_map(chunk.coord) {
            return None;
        }
        let map = self.get_surface_map(chunk.coord);
        let loc = chunk.coord2loc(coord);
        let node = map.get_node_option(loc);
        match node {
            None => None,
            Some(n) => Some(n.value),
        }
    }

    /// The corner that the step `dir` from the voxel `coord` of a chunk leads
    /// to: the origin of the chunk that is entered, the voxel there, and
    /// its surface point. None where that chunk or that point is missing.
    pub open spec fn spec_neighbor_sfp(
        &self,
        degree: u8,
        coord: IVec3,
        dir: IVec3,
        neighbors: Seq<Option<&WorldChunk>>,
    ) -> Option<Corner> {
        let step = spec_neighbor(spec_chunk_size(degree), coord, dir);
        match neighbors[step.0 as int] {
            None => None,
            Some(n_chunk) => match self.spec_sfp(n_chunk.coord, n_chunk.degree, step.1) {
                None => None,
                Some(sfp) => Some(
                    (n_chunk.coord.spec_scaled(spec_chunk_size(n_chunk.degree) as i32), step.1, sfp),
                ),
            },
        }
    }

    /// For each direction, the corner that the step from `coord` leads to.
    pub fn get_neighbor_sfp(
        &self,
        chunk: &WorldChunk,
        coord: IVec3,
        dirs: &[IVec3],
        neighbors: &Vec<Option<&WorldChunk>>,
    ) -> (sfps: Vec<Option<Corner>>)
        requires
            self.config_ok(),
            chunk.degree == self.chunk_degree,
            forall|i: int| 0 <= i < dirs@.len() ==> coord.can_plus(#[trigger] dirs@[i]),
            forall|i: int|
                0 <= i < dirs@.len() ==> spec_neighbor(
                    spec_chunk_size(chunk.degree),
                    coord,
                    #[trigger] dirs@[i],
                ).0 < neighbors@.len(),
            chunk.neighbors_ok(neighbors@),
            forall|k: int|
                0 <= k < neighbors@.len() && (#[trigger] neighbors@[k]) is Some
                    ==> crate::world::chunk::chunk_addressable(
                    neighbors@[k].unwrap().coord,
                    self.chunk_degree,
                ),
        ensures
            sfps@.len() == dirs@.len(),
            forall|i: int|
                0 <= i < dirs@.len() ==> #[trigger] sfps@[i] == self.spec_neighbor_sfp(
                    chunk.degree,
                    coord,
                    dirs@[i],
                    neighbors@,
                ),
            forall|i: int|
                0 <= i < dirs@.len() && (#[trigger] sfps@[i]) is Some ==> sfps@[i].unwrap().0.can_plus(
                    sfps@[i].unwrap().1,
                ),
    {
        let n_coords = chunk.neighbor_coords(coord, dirs);
        let mut sfps: Vec<Option<Corner>> = Vec::with_capacity(dirs.len());
        let mut i: usize = 0;
        while i < n_coords.len()
            invariant
                self.config_ok(),
                chunk.degree == self.chunk_degree,
                i <= n_coords@.len(),
                n_coords@.len() == dirs@.len(),
                forall|k: int|
                    0 <= k < dirs@.len() ==> #[trigger] n_coords@[k] == spec_neighbor(
                        spec_chunk_size(chunk.degree),
                        coord,
                        dirs@[k],
                    ),
                forall|k: int|
                    0 <= k < dirs@.len() ==> (#[trigger] n_coords@[k]).0 < neighbors@.len()
                        && n_coords@[k].1.within(0, spec_chunk_size(chunk.degree)),
                chunk.neighbors_ok(neighbors@),
                forall|k: int|
                    0 <= k < neighbors@.len() && (#[trigger] neighbors@[k]) is Some
                        ==> crate::world::chunk::chunk_addressable(
                        neighbors@[k].unwrap().coord,
                        self.chunk_degree,
                    ),
                sfps@.len() == i,
                forall|k: int|
                    0 <= k < i ==> #[trigger] sfps@[k] == self.spec_neighbor_sfp(
                        chunk.degree,
                        coord,
                        dirs@[k],
                        neighbors@,
                    ),
                forall|k: int|
                    0 <= k < i && (#[trigger] sfps@[k]) is Some ==> sfps@[k].unwrap().0.can_plus(
                        sfps@[k].unwrap().1,
                    ),
            decreases n_coords@.len() - i,
        {
            let dir_ind = n_coords[i].0;
            let n_coord = n_coords[i].1;
            let found: Option<Corner> = match neighbors[dir_ind] {
                None => None,
                Some(n_chunk) => {
                    proof {
                        n_chunk.lemma_frame_bounds();
                        crate::world::chunk::lemma_addressable_bounds(
                            n_chunk.coord,
                            self.chunk_degree,
                        );
                        reveal(chunk_keyable);
                    }
                    match self.get_sfp_by_coord(n_chunk, n_coord) {
                        None => None,
                        Some(v) => {
                            let origin = n_chunk.coord.scaled(self.chunk_size);
                            Some((origin, n_coord, v))
                        },
                    }
                },
            };
            sfps.push(found);
            i += 1;
        }
        sfps
    }

    /// The signed samples at voxel number `at` of the chunk at `chunk_coord`
    /// and one step from it along each positive axis.
    pub open spec fn spec_voxel_dists(&self, chunk_coord: IVec3, at: int) -> Seq<i32> {
        let chunk = self.chunks@[self.key_of(chunk_coord)];
        let coord = crate::math::spec_ind2coord(at, self.chunk_size as int);
        Seq::new(
            4,
            |i: int|
                chunk.spec_neighbor_dist(
                    coord,
                    IDirection::spec_unit_dirs()[i],
                    self.spec_neighbor_chunks(chunk_coord, IDirection::spec_unit_dirs()),
                ) as i32,
        )
    }

    /// The corners that the negative directions lead to from voxel number
    /// `at` of the chunk at `chunk_coord`.
    pub open spec fn spec_voxel_sfps(&self, chunk_coord: IVec3, at: int) -> Seq<Option<Corner>> {
        let coord = crate::math::spec_ind2coord(at, self.chunk_size as int);
        Seq::new(
            8,
            |i: int|
                self.spec_neighbor_sfp(
                    self.chunk_degree,
                    coord,
                    IDirection::spec_negative_dirs()[i],
                    self.spec_neighbor_chunks(chunk_coord, IDirection::spec_negative_dirs()),
                ),
        )
    }

    /// The mesh of the chunk at `chunk_coord` after its first `n` voxels, `x`
    /// running fastest, have added their quads.
    pub open spec fn spec_mesh_upto(&self, chunk_coord: IVec3, n: nat) -> MeshModel
        decreases n,
    {
        if n == 0 {
            MeshModel::empty()
        } else {
            spec_voxel_mesh(
                self.spec_mesh_upto(chunk_coord, (n - 1) as nat),
                self.spec_voxel_dists(chunk_coord, n - 1),
                self.spec_voxel_sfps(chunk_coord, n - 1),
                3,
            )
        }
    }

    /// The mesh of a chunk rests on the stored chunks and surfaces alone.
    pub proof fn lemma_mesh_frame(&self, other: &ChunkManager, chunk_coord: IVec3, n: nat)
        requires
            self.chunk_size == other.chunk_size,
            self.chunk_degree == other.chunk_degree,
            self.chunks@ == other.chunks@,
            self.surface_maps@ == other.surface_maps@,
        ensures
            self.spec_mesh_upto(chunk_coord, n) == other.spec_mesh_upto(chunk_coord, n),
        decreases n,
    {
        if n > 0 {
            self.lemma_mesh_frame(other, chunk_coord, (n - 1) as nat);
            self.lemma_neighbor_chunks_frame(other, chunk_coord, IDirection::spec_unit_dirs());
            self.lemma_neighbor_chunks_frame(other, chunk_coord, IDirection::spec_negative_dirs());
            assert(self.spec_voxel_dists(chunk_coord, n - 1) =~= other.spec_voxel_dists(
                chunk_coord,
                n - 1,
            ));
            assert(self.spec_voxel_sfps(chunk_coord, n - 1) =~= other.spec_voxel_sfps(
                chunk_coord,
                n - 1,
            ));
        }
    }

    /// The mesh of the chunk at `chunk_coord`, as the stored chunks and
    /// surfaces give it.
    pub open spec fn spec_chunk_mesh(&self, chunk_coord: IVec3) -> MeshModel {
        self.spec_mesh_upto(
            chunk_coord,
            (self.chunk_size * self.chunk_size * self.chunk_size) as nat,
        )
    }

    /// A voxel whose chunk holds no surface point for it adds nothing to a mesh.
    proof fn lemma_no_own_point(&self, mesh: MeshModel, chunk_coord: IVec3, at: int)
        requires
            self.config_ok(),
            self.chunks@.contains_key(self.key_of(chunk_coord)),
            self.chunks@[self.key_of(chunk_coord)].degree == self.chunk_degree,
            0 <= at < self.chunk_size * self.chunk_size * self.chunk_size,
            self.spec_sfp(
                self.chunks@[self.key_of(chunk_coord)].coord,
                self.chunk_degree,
                crate::math::spec_ind2coord(at, self.chunk_size as int),
            ) is None,
        ensures
            spec_voxel_mesh(
                mesh,
                self.spec_voxel_dists(chunk_coord, at),
                self.spec_voxel_sfps(chunk_coord, at),
                3,
            ) == mesh,
    {
        let n = self.chunk_size as int;
        let coord = crate::math::spec_ind2coord(at, n);
        let sfps = self.spec_voxel_sfps(chunk_coord, at);
        let dists = self.spec_voxel_dists(chunk_coord, at);
        let zero = IDirection::spec_negative_dirs()[0];
        vstd::arithmetic::power2::lemma_pow2_pos(self.chunk_degree as nat);
        lemma_place_in_grid(at, n);
        crate::world::chunk::lemma_neighbor_inside(n, coord, zero);
        assert(chunk_coord.spec_plus(zero) == chunk_coord);
        assert(sfps[0] is None);
        assert(spec_quad(0, dists, sfps) is None);
        assert(spec_quad(1, dists, sfps) is None);
        assert(spec_quad(2, dists, sfps) is None);
        reveal_with_fuel(spec_voxel_mesh, 4);
    }

    /// A chunk whose surface holds no point has a mesh without indices and
    /// without vertices.
    pub proof fn lemma_no_surface_no_mesh(&self, chunk_coord: IVec3, n: nat)
        requires
            self.tables_ok(),
            self.chunks@.contains_key(self.key_of(chunk_coord)),
            self.surface_maps@.contains_key(self.key_of(chunk_coord)),
            forall|l: u64| !self.surface_maps@[self.key_of(chunk_coord)]@.contains_key(l),
            n <= self.chunk_size * self.chunk_size * self.chunk_size,
        ensures
            self.spec_mesh_upto(chunk_coord, n) == MeshModel::empty(),
            n == self.chunk_size * self.chunk_size * self.chunk_size ==> self.spec_chunk_mesh(
                chunk_coord,
            ) == MeshModel::empty(),
        decreases n,
    {
        if n > 0 {
            self.lemma_no_surface_no_mesh(chunk_coord, (n - 1) as nat);
            self.lemma_no_own_point(MeshModel::empty(), chunk_coord, n - 1);
        }
    }

    /// Adds the quads of voxel number `at` of `chunk` to `mesh`.
    fn mesh_voxel(
        &self,
        mesh: &mut IndexedMesh,
        chunk_coord: IVec3,
        chunk: &WorldChunk,
        at: usize,
        neighbors: &Vec<Option<&WorldChunk>>,
        n_neighbors: &Vec<Option<&WorldChunk>>,
    )
        requires
            self.tables_ok(),
            self.chunks@.contains_key(self.key_of(chunk_coord)),
            *chunk == self.chunks@[self.key_of(chunk_coord)],
            chunk.wf(),
            chunk.degree == self.chunk_degree,
            neighbors@ == self.spec_neighbor_chunks(chunk_coord, IDirection::spec_unit_dirs()),
            n_neighbors@ == self.spec_neighbor_chunks(chunk_coord, IDirection::spec_negative_dirs()),
            at < self.chunk_size * self.chunk_size * self.chunk_size,
            old(mesh).wf(),
        ensures
            final(mesh).wf(),
            final(mesh)@ == spec_voxel_mesh(
                old(mesh)@,
                self.spec_voxel_dists(chunk_coord, at as int),
                self.spec_voxel_sfps(chunk_coord, at as int),
                3,
            ),
    {
        let unit = IDirection::unit_dirs();
        let negative = IDirection::negative_dirs();
        let inds = IDirection::sfp_inds();
        let size = chunk.size();
        let ghost n = size as int;
        proof {
            assert(n * n * n <= 1024 * 1024 * 1024) by (nonlinear_arith)
                requires
                    1 <= n <= 1024,
            ;
        }
        let coord = ind2coord(at as i32, size as i32);
        proof {
            chunk.lemma_frame_bounds();
            reveal(chunk_keyable);
        }
        // a voxel without a surface point of its own closes no quad
        if self.get_sfp_by_coord(chunk, coord).is_none() {
            proof {
                self.lemma_no_own_point(mesh@, chunk_coord, at as int);
            }
            return ;
        }
        proof {
            assert forall|i: int| 0 <= i < negative@.len() implies coord.can_plus(
                #[trigger] negative@[i],
            ) && spec_neighbor(spec_chunk_size(chunk.degree), coord, negative@[i]).0
                < n_neighbors@.len() by {
                WorldChunk::lemma_neighbor_place(n, coord, negative@[i]);
            }
            assert forall|i: int| 0 <= i < unit@.len() implies coord.can_plus(#[trigger] unit@[i])
                && spec_neighbor(spec_chunk_size(chunk.degree), coord, unit@[i]).0
                < neighbors@.len() by {
                WorldChunk::lemma_neighbor_place(n, coord, unit@[i]);
            }
        }
        let sfps = self.get_neighbor_sfp(chunk, coord, &negative, n_neighbors);
        let dists = chunk.neighbor_dist(coord, &unit, neighbors);
        let ghost start = mesh@;
        proof {
            assert(dists@ =~= self.spec_voxel_dists(chunk_coord, at as int));
            assert(sfps@ =~= self.spec_voxel_sfps(chunk_coord, at as int));
        }
        let mut s: usize = 0;
        while s < 3
            invariant
                s <= 3,
                inds@ == IDirection::spec_sfp_inds(),
                dists@.len() == 4,
                sfps@.len() == 8,
                forall|i: int|
                    0 <= i < 8 && (#[trigger] sfps@[i]) is Some ==> sfps@[i].unwrap().0.can_plus(
                        sfps@[i].unwrap().1,
                    ),
                mesh.wf(),
                mesh@ == spec_voxel_mesh(start, dists@, sfps@, s as nat),
            decreases 3 - s,
        {
            let (i, j, k) = inds[s];
            let own = sfps[0];
            let first = sfps[i];
            let second = sfps[j];
            let third = sfps[k];
            if is_intersection(dists[0], dists[s + 1]) && own.is_some() && first.is_some()
                && second.is_some() && third.is_some() {
                let z = own.unwrap();
                let a = first.unwrap();
                let b = second.unwrap();
                let c = third.unwrap();
                if dists[s + 1] > dists[0] {
                    let quad = [z, a, b, z, b, c];
                    assert(quad@ =~= seq![z, a, b, z, b, c]);
                    mesh.add_positions(&quad);
                } else {
                    let quad = [z, b, a, z, c, b];
                    assert(quad@ =~= seq![z, b, a, z, c, b]);
                    mesh.add_positions(&quad);
                }
            }
            s += 1;
        }
    }

    /// The table of meshes of `post` is that of this manager after the mesh
    /// of the chunk at `chunk_coord` was built: where the mesh holds a
    /// triangle it is stored under the key of the chunk, and where it holds
    /// none the key has no mesh; the other meshes stay.
    pub open spec fn meshed(&self, post: &ChunkManager, chunk_coord: IVec3) -> bool {
        let key = self.key_of(chunk_coord);
        let mesh = self.spec_chunk_mesh(chunk_coord);
        if mesh.inds.len() > 0 {
            &&& post.meshes@.contains_key(key)
            &&& post.meshes@ == self.meshes@.insert(key, post.meshes@[key])
            &&& post.meshes@[key]@ == mesh
        } else {
            post.meshes@ == self.meshes@.remove(key)
        }
    }

    /// Builds the mesh of the chunk at `chunk_coord`, and stores it where it
    /// holds a triangle; a chunk whose mesh holds none is left without a
    /// mesh. Does nothing where the surface of that chunk is not stored.
    pub fn create_mesh(&mut self, chunk_coord: IVec3)
        requires
            old(self).tables_ok(),
            crate::world::chunk::chunk_addressable(chunk_coord, old(self).chunk_degree),
        ensures
            final(self).tables_ok(),
            old(self).queues_ok() ==> final(self).queues_ok(),
            final(self).same_but_meshes(old(self)),
            !old(self).surface_maps@.contains_key(old(self).key_of(chunk_coord))
                ==> final(self).meshes@ == old(self).meshes@,
            old(self).surface_maps@.contains_key(old(self).key_of(chunk_coord)) ==> old(self).meshed(
                final(self),
                chunk_coord,
            ),
    {
        proof {
            self.lemma_keyable(chunk_coord, IVec3 { x: 0, y: 0, z: 0 });
        }
        let chunk_key = self.chunk_coord2key(chunk_coord);
        if !self.surface_maps.contains_key(&chunk_key) {
            return ;
        }
        let unit = IDirection::unit_dirs();
        let negative = IDirection::negative_dirs();
        proof {
            assert forall|i: int| 0 <= i < unit@.len() implies chunk_coord.can_plus(
                #[trigger] unit@[i],
            ) && chunk_keyable(self.chunk_size, chunk_coord.spec_plus(unit@[i])) by {
                self.lemma_keyable(chunk_coord, unit@[i]);
            }
            assert forall|i: int| 0 <= i < negative@.len() implies chunk_coord.can_plus(
                #[trigger] negative@[i],
            ) && chunk_keyable(self.chunk_size, chunk_coord.spec_plus(negative@[i])) by {
                self.lemma_keyable(chunk_coord, negative@[i]);
            }
        }
        let chunk = self.chunks.index(&chunk_key);
        let neighbors = self.get_neighbor_chunks(chunk_coord, &unit);
        let n_neighbors = self.get_neighbor_chunks(chunk_coord, &negative);
        let size = chunk.size();
        let ghost n = size as int;
        proof {
            assert(size * size * size <= 1024 * 1024 * 1024) by (nonlinear_arith)
                requires
                    1 <= size <= 1024,
            ;
            assert(size * size <= 1024 * 1024) by (nonlinear_arith)
                requires
                    1 <= size <= 1024,
            ;
        }
        let total: usize = size * size * size;
        let mut mesh = IndexedMesh::new();
        let mut at: usize = 0;
        while at < total
            invariant
                self.tables_ok(),
                *self == *old(self),
                self.chunks@.contains_key(self.key_of(chunk_coord)),
                *chunk == self.chunks@[self.key_of(chunk_coord)],
                chunk.wf(),
                chunk.degree == self.chunk_degree,
                neighbors@ == self.spec_neighbor_chunks(chunk_coord, IDirection::spec_unit_dirs()),
                n_neighbors@ == self.spec_neighbor_chunks(
                    chunk_coord,
                    IDirection::spec_negative_dirs(),
                ),
                total == self.chunk_size * self.chunk_size * self.chunk_size,
                at <= total,
                mesh.wf(),
                mesh@ == self.spec_mesh_upto(chunk_coord, at as nat),
            decreases total - at,
        {
            self.mesh_voxel(&mut mesh, chunk_coord, chunk, at, &neighbors, &n_neighbors);
            at += 1;
        }
        if mesh.is_empty() {
            self.meshes.remove(&chunk_key);
        } else {
            self.meshes.insert(chunk_key, mesh);
        }
        proof {
            if old(self).queues_ok() {
                self.lemma_same_queues(old(self));
            }
        }
    }
}

} // verus!
