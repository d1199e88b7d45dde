use octree::{Cube, Node, Octree, OctreeError, Point, Visit};

fn pt(x: u32, y: u32, z: u32, payload: u64) -> Point {
    Point { x, y, z, payload }
}

#[test]
fn full_walk_visits_every_node_in_preorder() {
    let t = Octree::new(3, 1, vec![]).unwrap();
    let nodes = t.visit(|_n: Node| Visit::Descend, 5);
    assert_eq!(nodes.len(), 9);
    assert_eq!(nodes[0], Node { depth: 0, prefix: 0 });
    for i in 0..8u64 {
        assert_eq!(nodes[1 + i as usize], Node { depth: 1, prefix: i });
    }
}

#[test]
fn empty_tree_walk_reaches_all_leaves_without_points() {
    let t = Octree::new(3, 2, vec![]).unwrap();
    let nodes = t.visit(|_n: Node| Visit::Descend, 2);
    assert_eq!(nodes.len(), 1 + 8 + 64);
    let leaves: Vec<&Node> = nodes.iter().filter(|n| n.depth == 2).collect();
    assert_eq!(leaves.len(), 64);
    for n in leaves {
        assert_eq!(t.query(n.prefix, n.depth), Ok(vec![]));
    }
}

#[test]
fn level_of_detail_stops_at_depth() {
    let t = Octree::new(4, 3, vec![pt(1, 2, 3, 1)]).unwrap();
    let nodes = t.visit(|n: Node| if n.depth < 2 { Visit::Descend } else { Visit::Skip }, 3);
    assert_eq!(nodes.iter().filter(|n| n.depth == 2).count(), 64);
    assert!(nodes.iter().all(|n| n.depth <= 2));
    assert_eq!(nodes.len(), 1 + 8 + 64);
}

#[test]
fn depth_limit_caps_descent() {
    let t = Octree::new(4, 3, vec![]).unwrap();
    let nodes = t.visit(|_n: Node| Visit::Descend, 1);
    assert_eq!(nodes.len(), 9);
    let deep = t.visit(|_n: Node| Visit::Descend, 9);
    assert_eq!(deep.len(), 1 + 8 + 64 + 512);
}

#[test]
fn stop_ends_the_walk() {
    let t = Octree::new(3, 3, vec![]).unwrap();
    let nodes = t.visit(|n: Node| if n.depth == 2 { Visit::Stop } else { Visit::Descend }, 3);
    assert_eq!(
        nodes,
        vec![Node { depth: 0, prefix: 0 }, Node { depth: 1, prefix: 0 }, Node { depth: 2, prefix: 0 }]
    );
}

#[test]
fn skip_leaves_a_subtree_out() {
    let t = Octree::new(2, 2, vec![]).unwrap();
    let nodes = t.visit(
        |n: Node| if n.depth == 1 && n.prefix != 3 { Visit::Skip } else { Visit::Descend },
        2,
    );
    assert_eq!(nodes.len(), 1 + 8 + 8);
    assert_eq!(nodes[4], Node { depth: 1, prefix: 3 });
    assert_eq!(nodes[5], Node { depth: 2, prefix: 24 });
}

#[test]
fn walks_are_restartable() {
    let t = Octree::new(2, 2, vec![pt(0, 0, 0, 1)]).unwrap();
    let a = t.visit(|_n: Node| Visit::Descend, 2);
    let b = t.visit(|_n: Node| Visit::Descend, 2);
    assert_eq!(a, b);
}

#[test]
fn summarize_counts_points_beneath() {
    let pts = vec![pt(5, 2, 6, 1), pt(4, 3, 7, 2), pt(1, 2, 6, 3)];
    let t = Octree::new(3, 3, pts).unwrap();
    assert_eq!(t.summarize(0b101, 1, |v: Vec<Point>| v.len()), Ok(2));
    assert_eq!(t.summarize(0, 0, |v: Vec<Point>| v.len()), Ok(3));
    assert_eq!(
        t.summarize(0, 0, |v: Vec<Point>| v.iter().map(|p| p.x).max()),
        Ok(Some(5))
    );
    assert!(t.summarize(0, 4, |v: Vec<Point>| v.len()).is_err());
}

#[test]
fn cube_bounds_of_nodes() {
    let t = Octree::new(3, 2, vec![]).unwrap();
    assert_eq!(t.cube(Node { depth: 0, prefix: 0 }), Ok(Cube { x: 0, y: 0, z: 0, side: 8 }));
    // prefix 0b101 at depth 1: x and z in the upper half
    assert_eq!(t.cube(Node { depth: 1, prefix: 5 }), Ok(Cube { x: 4, y: 0, z: 4, side: 4 }));
    assert_eq!(t.cube(Node { depth: 2, prefix: 63 }), Ok(Cube { x: 6, y: 6, z: 6, side: 2 }));
    assert_eq!(t.cube(Node { depth: 3, prefix: 0 }), Err(OctreeError::InvalidDepth));
    assert_eq!(t.cube(Node { depth: 1, prefix: 8 }), Err(OctreeError::InvalidCoordinate));
}

#[test]
fn observer_driven_level_of_detail() {
    let t = Octree::new(4, 4, vec![]).unwrap();
    // refine only the cubes that hold the observer's corner
    let nodes = t.visit(
        |n: Node| {
            let c = t.cube(n).unwrap();
            if c.x == 0 && c.y == 0 && c.z == 0 { Visit::Descend } else { Visit::Skip }
        },
        4,
    );
    assert_eq!(nodes.len(), 1 + 8 * 4);
}
