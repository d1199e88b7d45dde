use octree::{Octree, OctreeError, Point};

fn pt(x: u32, y: u32, z: u32, payload: u64) -> Point {
    Point { x, y, z, payload }
}

#[test]
fn fixture_full_resolution() {
    let pts = vec![pt(5, 2, 6, 1), pt(4, 3, 7, 2), pt(1, 2, 6, 3), pt(7, 0, 5, 4), pt(5, 2, 7, 5)];
    let t = Octree::new(3, 3, pts).unwrap();
    assert_eq!(t.bucket_count(), 512);
    let leaf = 0b101_011_100u64;
    assert_eq!(t.bucket(leaf).unwrap(), &vec![pt(5, 2, 6, 1)]);
    assert_eq!(t.lookup(5, 2, 6), Ok(vec![pt(5, 2, 6, 1)]));
    // top bit of each axis is 1, 0, 1
    let group = t.query(0b101, 1).unwrap();
    assert_eq!(group.len(), 4);
    assert!(group.contains(&pt(5, 2, 6, 1)));
    assert!(group.contains(&pt(4, 3, 7, 2)));
    assert!(group.contains(&pt(7, 0, 5, 4)));
    assert!(group.contains(&pt(5, 2, 7, 5)));
    assert!(!group.contains(&pt(1, 2, 6, 3)));
}

#[test]
fn empty_input_gives_empty_buckets() {
    let t = Octree::new(3, 2, vec![]).unwrap();
    assert_eq!(t.bucket_count(), 64);
    for i in 0..64u64 {
        assert!(t.bucket(i).unwrap().is_empty());
    }
    assert_eq!(t.query(0, 0), Ok(vec![]));
    assert!(t.bucket(64).is_none());
}

#[test]
fn build_keeps_input_order_within_a_bucket() {
    let pts = vec![pt(1, 1, 1, 10), pt(0, 0, 0, 11), pt(1, 0, 1, 12)];
    let t = Octree::new(2, 1, pts.clone()).unwrap();
    assert_eq!(t.bucket(0).unwrap(), &pts);
    let again = Octree::new(2, 1, pts).unwrap();
    for i in 0..8u64 {
        assert_eq!(t.bucket(i), again.bucket(i));
    }
}

#[test]
fn build_is_deterministic_up_to_input_order() {
    let a = vec![pt(0, 0, 0, 1), pt(3, 3, 3, 2), pt(2, 0, 1, 3)];
    let b = vec![pt(2, 0, 1, 3), pt(0, 0, 0, 1), pt(3, 3, 3, 2)];
    let ta = Octree::new(2, 1, a).unwrap();
    let tb = Octree::new(2, 1, b).unwrap();
    for i in 0..8u64 {
        let mut x = ta.bucket(i).unwrap().clone();
        let mut y = tb.bucket(i).unwrap().clone();
        x.sort_by_key(|p| p.payload);
        y.sort_by_key(|p| p.payload);
        assert_eq!(x, y);
    }
}

#[test]
fn construction_errors() {
    assert_eq!(Octree::new(22, 1, vec![]).err(), Some(OctreeError::Overflow));
    assert_eq!(Octree::new(3, 4, vec![]).err(), Some(OctreeError::InvalidDepth));
    assert_eq!(Octree::new(3, 1, vec![pt(8, 0, 0, 0)]).err(), Some(OctreeError::InvalidCoordinate));
}

#[test]
fn depth_zero_has_one_bucket() {
    let t = Octree::new(4, 0, vec![pt(15, 0, 3, 1), pt(2, 9, 1, 2)]).unwrap();
    assert_eq!(t.bucket_count(), 1);
    assert_eq!(t.bucket(0).unwrap().len(), 2);
    assert_eq!(t.bits(), 4);
    assert_eq!(t.depth(), 0);
}

#[test]
fn insert_and_remove() {
    let mut t = Octree::new(3, 1, vec![]).unwrap();
    assert_eq!(t.insert(pt(7, 7, 7, 1)), Ok(()));
    assert_eq!(t.insert(pt(7, 7, 6, 2)), Ok(()));
    assert_eq!(t.insert(pt(7, 7, 7, 1)), Ok(()));
    assert_eq!(t.bucket(7).unwrap().len(), 3);
    assert_eq!(t.insert(pt(9, 0, 0, 1)), Err(OctreeError::InvalidCoordinate));
    assert_eq!(t.remove(pt(7, 7, 7, 1)), Ok(()));
    assert_eq!(t.bucket(7).unwrap(), &vec![pt(7, 7, 6, 2), pt(7, 7, 7, 1)]);
    assert_eq!(t.remove(pt(0, 0, 0, 1)), Err(OctreeError::NotFound));
    assert_eq!(t.remove(pt(8, 0, 0, 1)), Err(OctreeError::InvalidCoordinate));
    assert_eq!(t.bucket(7).unwrap().len(), 2);
}

#[test]
fn lookup_filters_exact_coordinates() {
    let t = Octree::new(3, 1, vec![pt(7, 7, 7, 1), pt(6, 6, 6, 2), pt(7, 7, 7, 3)]).unwrap();
    assert_eq!(t.lookup(7, 7, 7), Ok(vec![pt(7, 7, 7, 1), pt(7, 7, 7, 3)]));
    assert_eq!(t.lookup(5, 5, 5), Ok(vec![]));
    assert_eq!(t.lookup(8, 0, 0), Err(OctreeError::InvalidCoordinate));
}

#[test]
fn query_rolls_up_and_checks_depth() {
    let t = Octree::new(2, 2, vec![pt(3, 3, 3, 1), pt(0, 0, 1, 2), pt(2, 2, 2, 3)]).unwrap();
    assert_eq!(t.query(7, 1), Ok(vec![pt(2, 2, 2, 3), pt(3, 3, 3, 1)]));
    assert_eq!(t.query(0, 0).unwrap().len(), 3);
    assert_eq!(t.query(1, 2), Ok(vec![pt(0, 0, 1, 2)]));
    assert_eq!(t.query(8, 1), Ok(vec![]));
    assert_eq!(t.query(0, 3), Err(OctreeError::InvalidDepth));
}
