use octree::{encode, Octree, OctreeError};

#[test]
fn face_neighbors_of_corner_are_clipped() {
    let t = Octree::new(3, 3, vec![]).unwrap();
    assert_eq!(t.face_neighbors(0, 1), Ok(vec![4, 2, 1]));
    assert_eq!(t.face_neighbors(7, 1), Ok(vec![3, 5, 6]));
    assert_eq!(t.face_neighbors(0, 0), Ok(vec![]));
}

#[test]
fn face_neighbors_of_interior_cell() {
    let t = Octree::new(3, 3, vec![]).unwrap();
    let a = encode(2, 1, 1, 1).unwrap();
    assert_eq!(a, 7);
    assert_eq!(t.face_neighbors(a, 2), Ok(vec![3, 35, 5, 21, 6, 14]));
}

#[test]
fn face_neighbors_carry_across_octants() {
    let t = Octree::new(3, 3, vec![]).unwrap();
    // (3, 0, 0) + x is (4, 0, 0): the carry reaches the top group.
    let a = encode(3, 3, 0, 0).unwrap();
    let n = t.face_neighbors(a, 3).unwrap();
    assert!(n.contains(&encode(3, 4, 0, 0).unwrap()));
    assert!(n.contains(&encode(3, 2, 0, 0).unwrap()));
    assert_eq!(n.len(), 4);
}

#[test]
fn face_neighbors_are_symmetric() {
    let t = Octree::new(2, 2, vec![]).unwrap();
    for a in 0..64u64 {
        for b in t.face_neighbors(a, 2).unwrap() {
            assert!(t.face_neighbors(b, 2).unwrap().contains(&a));
        }
    }
}

#[test]
fn vertex_neighbor_counts() {
    let t = Octree::new(3, 3, vec![]).unwrap();
    assert_eq!(t.vertex_neighbors(0, 1), Ok(vec![1, 2, 3, 4, 5, 6, 7]));
    let inner = encode(2, 1, 1, 1).unwrap();
    assert_eq!(t.vertex_neighbors(inner, 2).unwrap().len(), 26);
    let edge = encode(2, 0, 1, 1).unwrap();
    assert_eq!(t.vertex_neighbors(edge, 2).unwrap().len(), 17);
    assert_eq!(t.vertex_neighbors(0, 0), Ok(vec![]));
}

#[test]
fn neighbor_errors() {
    let t = Octree::new(3, 2, vec![]).unwrap();
    assert_eq!(t.face_neighbors(0, 3), Err(OctreeError::InvalidDepth));
    assert_eq!(t.face_neighbors(64, 2), Err(OctreeError::InvalidCoordinate));
    assert_eq!(t.vertex_neighbors(0, 3), Err(OctreeError::InvalidDepth));
    assert_eq!(t.vertex_neighbors(8, 1), Err(OctreeError::InvalidCoordinate));
}
