use mesh_bvh::mesh::extract_triangles;

#[test]
fn keeps_complete_valid_triples_in_order() {
    // Four vertices (12 coordinates).
    let r = extract_triangles(12, &vec![0, 1, 2, 2, 3, 0]);
    assert_eq!(r, vec![(0, 1, 2), (2, 3, 0)]);
}

#[test]
fn drops_trailing_incomplete_triple() {
    let r = extract_triangles(12, &vec![0, 1, 2, 3, 0]);
    assert_eq!(r, vec![(0, 1, 2)]);
}

#[test]
fn drops_out_of_range_triples() {
    let r = extract_triangles(12, &vec![0, 1, 4, 1, 2, 3, 9, 0, 0]);
    assert_eq!(r, vec![(1, 2, 3)]);
}

#[test]
fn partial_vertex_is_out_of_range() {
    // 11 coordinates: vertex 3 lacks its z.
    let r = extract_triangles(11, &vec![0, 1, 2, 1, 2, 3]);
    assert_eq!(r, vec![(0, 1, 2)]);
}

#[test]
fn empty_inputs() {
    assert!(extract_triangles(0, &vec![0, 0, 0]).is_empty());
    assert!(extract_triangles(9, &vec![]).is_empty());
}
