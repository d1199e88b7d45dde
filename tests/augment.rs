use octree::{Augmented, Octree, OctreeError, Point};

fn pt(x: u32, y: u32, z: u32, payload: u64) -> Point {
    Point { x, y, z, payload }
}

#[test]
fn summaries_follow_changes_beneath() {
    let t = Octree::new(3, 2, vec![pt(0, 0, 0, 1), pt(7, 7, 7, 2), pt(6, 7, 7, 3)]).unwrap();
    let mut a = Augmented::new(t, |v: Vec<Point>| v.len());
    assert_eq!(a.summary(0, 0), Ok(3));
    assert_eq!(a.summary(7, 1), Ok(2));
    assert_eq!(a.summary(0, 1), Ok(1));
    assert_eq!(a.insert(pt(7, 6, 7, 4)), Ok(()));
    assert_eq!(a.summary(0, 0), Ok(4));
    assert_eq!(a.summary(7, 1), Ok(3));
    assert_eq!(a.summary(0, 1), Ok(1));
    assert_eq!(a.remove(pt(0, 0, 0, 1)), Ok(()));
    assert_eq!(a.summary(0, 1), Ok(0));
    assert_eq!(a.summary(0, 0), Ok(3));
    assert_eq!(a.tree().bucket_count(), 64);
}

#[test]
fn summary_of_extents() {
    let t = Octree::new(3, 1, vec![pt(1, 5, 2, 1), pt(3, 0, 7, 2)]).unwrap();
    let mut a = Augmented::new(t, |v: Vec<Point>| v.iter().map(|p| p.x.max(p.y).max(p.z)).max());
    assert_eq!(a.summary(0, 0), Ok(Some(7)));
}

#[test]
fn summary_errors_and_failed_changes() {
    let t = Octree::new(3, 2, vec![]).unwrap();
    let mut a = Augmented::new(t, |v: Vec<Point>| v.len());
    assert_eq!(a.summary(0, 2), Err(OctreeError::InvalidDepth));
    assert_eq!(a.summary(8, 1), Err(OctreeError::InvalidCoordinate));
    assert_eq!(a.insert(pt(8, 0, 0, 1)), Err(OctreeError::InvalidCoordinate));
    assert_eq!(a.remove(pt(1, 1, 1, 1)), Err(OctreeError::NotFound));
    assert_eq!(a.summary(0, 0), Ok(0));
}
