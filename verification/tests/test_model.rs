use vox::geometry::Triangle;
use vox::model::{Mesh, VertexModel};
use vox::stl::{Facet, Pt3};

fn bits(x: f32, y: f32, z: f32) -> Pt3 {
    Pt3([x.to_bits(), y.to_bits(), z.to_bits()])
}

fn facet(a: Pt3, b: Pt3, c: Pt3) -> Facet {
    Facet { tri: [a, b, c], normal: bits(0.0, 0.0, 1.0) }
}

#[test]
fn empty_soup_gives_an_empty_mesh() {
    let mesh = Mesh::from_facets(vec![]);
    assert_eq!(mesh.faces.len(), 0);
    assert_eq!(mesh.vertices.len(), 0);
    assert_eq!(mesh.triangles().len(), 0);
}

#[test]
fn shared_corners_become_one_vertex() {
    let a = bits(0.0, 0.0, 0.0);
    let b = bits(1.0, 0.0, 0.0);
    let c = bits(0.0, 1.0, 0.0);
    let d = bits(1.0, 1.0, 0.0);
    let mesh = Mesh::from_facets(vec![facet(a, b, c), facet(b, d, c)]);

    assert_eq!(mesh.faces.len(), 2);
    assert_eq!(mesh.faces[0].vertices, [0, 1, 2]);
    assert_eq!(mesh.faces[1].vertices, [1, 3, 2]);

    // The vertices in the order in which they first occur.
    assert_eq!(mesh.vertices.len(), 4);
    assert_eq!(mesh.vertices[0].vtx, VertexModel(a));
    assert_eq!(mesh.vertices[1].vtx, VertexModel(b));
    assert_eq!(mesh.vertices[2].vtx, VertexModel(c));
    assert_eq!(mesh.vertices[3].vtx, VertexModel(d));
    assert_eq!(*mesh.get_vertex(3), VertexModel(d));

    // Each vertex with the faces that it is a corner of.
    assert_eq!(mesh.vertices[0].faces, vec![0]);
    assert_eq!(mesh.vertices[1].faces, vec![0, 1]);
    assert_eq!(mesh.vertices[2].faces, vec![0, 1]);
    assert_eq!(mesh.vertices[3].faces, vec![1]);
}

#[test]
fn a_vertex_owns_a_face_once_for_every_corner() {
    let a = bits(0.0, 0.0, 0.0);
    let b = bits(1.0, 0.0, 0.0);
    let mesh = Mesh::from_facets(vec![facet(a, a, b), facet(b, b, b)]);
    assert_eq!(mesh.vertices.len(), 2);
    assert_eq!(mesh.faces[0].vertices, [0, 0, 1]);
    assert_eq!(mesh.faces[1].vertices, [1, 1, 1]);
    assert_eq!(mesh.vertices[0].faces, vec![0, 0]);
    assert_eq!(mesh.vertices[1].faces, vec![0, 1, 1, 1]);
}

#[test]
fn the_two_zeros_are_one_coordinate() {
    let plus = bits(0.0, 0.0, 0.0);
    let minus = bits(-0.0, 0.0, -0.0);
    let other = bits(0.0, 0.0, 1.0e-45);
    let mesh = Mesh::from_facets(vec![facet(plus, minus, other)]);
    assert_eq!(mesh.vertices.len(), 2);
    assert_eq!(mesh.faces[0].vertices, [0, 0, 1]);
    // The vertex is kept as it first occurred.
    assert_eq!(mesh.vertices[0].vtx, VertexModel(plus));
}

#[test]
fn what_is_no_number_is_one_coordinate() {
    let a = Pt3([0x7fc0_0000, 0, 0]);
    let b = Pt3([0xffc0_0001, 0, 0]);
    let c = Pt3([0x7f80_0000, 0, 0]);
    let mesh = Mesh::from_facets(vec![facet(a, b, c)]);
    assert_eq!(mesh.vertices.len(), 2);
    assert_eq!(mesh.faces[0].vertices, [0, 0, 1]);
}

#[test]
fn coordinates_are_not_mixed_up() {
    let a = bits(1.0, 2.0, 3.0);
    let b = bits(3.0, 2.0, 1.0);
    let c = bits(2.0, 1.0, 3.0);
    let mesh = Mesh::from_facets(vec![facet(a, b, c)]);
    assert_eq!(mesh.vertices.len(), 3);
}

#[test]
fn triangles_follow_the_faces() {
    let a = bits(0.0, 0.0, 0.0);
    let b = bits(1.0, 0.0, 0.0);
    let c = bits(0.0, 1.0, 0.0);
    let d = bits(1.0, 1.0, 0.0);
    let mesh = Mesh::from_facets(vec![facet(a, b, c), facet(b, d, c)]);
    let tris = mesh.triangles();
    assert_eq!(
        tris,
        vec![
            Triangle([VertexModel(a), VertexModel(b), VertexModel(c)]),
            Triangle([VertexModel(b), VertexModel(d), VertexModel(c)])
        ]
    );
}
