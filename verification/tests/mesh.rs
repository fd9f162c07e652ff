use sdf_terrain::math::coord2key;
use sdf_terrain::math::ivec3;
use sdf_terrain::math::IVec3;
use sdf_terrain::octree::SurfacePoint;
use sdf_terrain::render::mesh::IndexedMesh;

fn corner(origin: IVec3, voxel: IVec3, tag: i32) -> (IVec3, IVec3, SurfacePoint) {
    (origin, voxel, SurfacePoint { corners: [tag, 1, 1, 1, 1, 1, 1, 1] })
}

#[test]
fn empty_mesh_has_the_full_capacity() {
    let mesh = IndexedMesh::new();
    assert!(mesh.is_empty());
    assert_eq!(mesh.inds.len(), 3072);
    assert_eq!(mesh.verts.len(), 512);
    assert_eq!((mesh.next_ind, mesh.next_vert), (0, 0));
    assert_eq!(mesh.index_array(512), vec![512u32; 3072]);
}

#[test]
fn corners_of_one_voxel_share_a_vertex() {
    let o = ivec3(8, 0, 0);
    let z = corner(o, ivec3(1, 1, 1), -1);
    let a = corner(o, ivec3(0, 1, 1), -2);
    let b = corner(o, ivec3(0, 0, 1), -3);
    let c = corner(o, ivec3(1, 0, 1), -4);
    let mut mesh = IndexedMesh::new();
    mesh.add_positions(&[z, a, b, z, b, c]);
    assert!(!mesh.is_empty());
    assert_eq!((mesh.next_ind, mesh.next_vert), (6, 4));
    assert_eq!(&mesh.inds[0..6], &[0, 1, 2, 0, 2, 3]);
    assert_eq!(mesh.verts[0].voxel, ivec3(9, 1, 1));
    assert_eq!(mesh.verts[3].voxel, ivec3(9, 0, 1));
    assert_eq!(mesh.verts[2].point.corners[0], -3);
    assert_eq!(mesh.vert_index.get(&coord2key(ivec3(8, 1, 1))), Some(&1));
    // the same voxel, reached from the chunk next door, is the same vertex
    let again = corner(ivec3(0, 0, 0), ivec3(9, 1, 1), -9);
    let d = corner(o, ivec3(2, 1, 1), -5);
    mesh.add_positions(&[again, d, a]);
    assert_eq!((mesh.next_ind, mesh.next_vert), (9, 5));
    assert_eq!(&mesh.inds[6..9], &[0, 4, 1]);
    assert_eq!(mesh.verts[0].point.corners[0], -1);
    let raised = mesh.index_array(1024);
    assert_eq!(&raised[0..9], &[1024, 1025, 1026, 1024, 1026, 1027, 1024, 1028, 1025]);
    assert_eq!(raised[9], 1024);
    assert_eq!(raised.len(), 3072);
}

#[test]
fn a_list_that_is_no_whole_triangle_is_cut() {
    let o = ivec3(0, 0, 0);
    let mut mesh = IndexedMesh::new();
    mesh.add_positions(&[corner(o, ivec3(0, 0, 0), 1), corner(o, ivec3(1, 0, 0), 2)]);
    assert!(mesh.is_empty());
    mesh.add_positions(&[
        corner(o, ivec3(0, 0, 0), 1),
        corner(o, ivec3(1, 0, 0), 2),
        corner(o, ivec3(2, 0, 0), 3),
        corner(o, ivec3(3, 0, 0), 4),
    ]);
    assert_eq!((mesh.next_ind, mesh.next_vert), (3, 3));
}

#[test]
fn triangles_beyond_the_vertex_capacity_are_dropped_whole() {
    let o = ivec3(0, 0, 0);
    let mut mesh = IndexedMesh::new();
    // 170 triangles of fresh vertices take 510 vertices
    for t in 0..170 {
        let tri = [
            corner(o, ivec3(3 * t, 0, 0), 1),
            corner(o, ivec3(3 * t + 1, 0, 0), 1),
            corner(o, ivec3(3 * t + 2, 0, 0), 1),
        ];
        assert!(mesh.add_triangle(&tri[0], &tri[1], &tri[2]));
    }
    assert_eq!((mesh.next_ind, mesh.next_vert), (510, 510));
    // three fresh vertices do not fit: the whole triangle is dropped
    let fresh = [corner(o, ivec3(0, 1, 0), 1), corner(o, ivec3(1, 1, 0), 1), corner(o, ivec3(2, 1, 0), 1)];
    assert!(!mesh.add_triangle(&fresh[0], &fresh[1], &fresh[2]));
    assert_eq!((mesh.next_ind, mesh.next_vert), (510, 510));
    // two fresh vertices and a known one do
    assert!(mesh.add_triangle(&fresh[0], &fresh[1], &corner(o, ivec3(0, 0, 0), 1)));
    assert_eq!((mesh.next_ind, mesh.next_vert), (513, 512));
    assert_eq!(&mesh.inds[510..513], &[510, 511, 0]);
    // from now on only triangles of known vertices fit; one that does not
    // fit ends the adding of its list
    let known = [corner(o, ivec3(0, 0, 0), 1), corner(o, ivec3(1, 0, 0), 1), corner(o, ivec3(2, 0, 0), 1)];
    mesh.add_positions(&[known[0], known[1], known[2], fresh[2], known[0], known[1], known[2], known[1], known[0]]);
    assert_eq!((mesh.next_ind, mesh.next_vert), (516, 512));
    assert_eq!(&mesh.inds[513..516], &[0, 1, 2]);
}

#[test]
fn triangles_beyond_the_index_capacity_are_dropped() {
    let o = ivec3(0, 0, 0);
    let known = [corner(o, ivec3(0, 0, 0), 1), corner(o, ivec3(1, 0, 0), 1), corner(o, ivec3(2, 0, 0), 1)];
    let mut mesh = IndexedMesh::new();
    for _ in 0..1024 {
        assert!(mesh.add_triangle(&known[0], &known[1], &known[2]));
    }
    assert_eq!((mesh.next_ind, mesh.next_vert), (3072, 3));
    assert!(!mesh.add_triangle(&known[0], &known[1], &known[2]));
    mesh.add_positions(&known);
    assert_eq!((mesh.next_ind, mesh.next_vert), (3072, 3));
    assert_eq!(mesh.index_array(5)[3071], 7);
}
