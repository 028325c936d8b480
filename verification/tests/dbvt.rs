use ncollide::bounding_volume::AABB;
use ncollide::broad_phase::{DBVTBroadPhase, SpatialQuery};
use ncollide::collision_object::CollisionObjectHandle;
use ncollide::dbvt::{DBVTNode, DBVT, MAX_DEPTH};
use ncollide::math::Vector;

fn span(lo: i64, hi: i64) -> AABB {
    AABB::new(Vector::new(lo, 0, 0), Vector::new(hi, 1, 1))
}

fn hits(tree: &DBVT, lo: i64, hi: i64) -> Vec<usize> {
    let mut out = Vec::new();
    tree.collect(&SpatialQuery::Volume(span(lo, hi)), &mut out);
    out
}

fn sorted(mut v: Vec<usize>) -> Vec<usize> {
    v.sort();
    v
}

fn depth(node: &DBVTNode) -> usize {
    match node {
        DBVTNode::Leaf { .. } => 1,
        DBVTNode::Branch { left, right, .. } => 1 + depth(left).max(depth(right)),
    }
}

fn check_boxes(node: &DBVTNode) {
    if let DBVTNode::Branch { aabb, left, right } = node {
        assert_eq!(*aabb, left.aabb().merged(&right.aabb()));
        check_boxes(left);
        check_boxes(right);
    }
}

#[test]
fn empty_tree_yields_nothing() {
    let mut tree = DBVT::new();
    assert!(tree.is_empty());
    assert_eq!(hits(&tree, i64::MIN, i64::MAX), vec![]);
    assert!(!tree.remove(&span(0, 1), 0));
    assert!(tree.is_empty());
}

#[test]
fn leaves_go_down_to_the_child_that_grows_less() {
    let mut tree = DBVT::new();
    tree.insert(span(0, 10), 0);
    tree.insert(span(100, 110), 1);
    tree.insert(span(101, 105), 2);
    tree.insert(span(-3, 2), 3);
    match tree.root.as_ref().unwrap() {
        DBVTNode::Branch { aabb, left, right } => {
            assert_eq!(*aabb, span(-3, 110));
            assert_eq!(left.aabb(), span(-3, 10));
            assert_eq!(right.aabb(), span(100, 110));
        }
        _ => panic!("not a branch"),
    }
    check_boxes(tree.root.as_ref().unwrap());
    assert_eq!(hits(&tree, -10, 200), vec![0, 3, 1, 2]);
    assert_eq!(hits(&tree, 10, 100), vec![0, 1]);
    assert_eq!(hits(&tree, 11, 99), vec![]);
    assert_eq!(hits(&tree, 102, 103), vec![1, 2]);
    let mut out = vec![9];
    tree.collect(&SpatialQuery::Point(Vector::new(1, 1, 1)), &mut out);
    assert_eq!(out, vec![9, 0, 3]);
}

#[test]
fn removing_a_leaf_puts_its_sibling_in_the_place_of_their_parent() {
    let mut tree = DBVT::new();
    tree.insert(span(0, 10), 0);
    tree.insert(span(100, 110), 1);
    tree.insert(span(101, 105), 2);
    assert!(!tree.remove(&span(0, 10), 1));
    assert!(!tree.remove(&span(0, 11), 0));
    assert_eq!(hits(&tree, -10, 200), vec![0, 1, 2]);
    assert!(tree.remove(&span(100, 110), 1));
    match tree.root.as_ref().unwrap() {
        DBVTNode::Branch { aabb, left, right } => {
            assert_eq!(*aabb, span(0, 105));
            assert_eq!(left.aabb(), span(0, 10));
            assert_eq!(right.aabb(), span(101, 105));
            assert_eq!(depth(left) + depth(right), 2);
        }
        _ => panic!("not a branch"),
    }
    assert!(tree.remove(&span(0, 10), 0));
    assert_eq!(hits(&tree, -10, 200), vec![2]);
    assert!(tree.remove(&span(101, 105), 2));
    assert!(tree.is_empty());
}

#[test]
fn tree_agrees_with_a_scan() {
    let mut tree = DBVT::new();
    let mut boxes = Vec::new();
    let mut seed: i64 = 12345;
    for i in 0..200usize {
        seed = (seed * 1103515245 + 12345) % 2147483648;
        let lo = seed % 1000;
        let b = span(lo, lo + 1 + (seed / 1000) % 40);
        tree.insert(b, i);
        boxes.push(Some(b));
    }
    for i in (0..200usize).step_by(3) {
        assert!(tree.remove(&boxes[i].unwrap(), i));
        boxes[i] = None;
    }
    check_boxes(tree.root.as_ref().unwrap());
    for lo in (0..1050).step_by(50) {
        let q = span(lo, lo + 30);
        let expected: Vec<usize> =
            (0..200).filter(|i| boxes[*i].map_or(false, |b| b.intersects(&q))).collect();
        assert_eq!(sorted(hits(&tree, lo, lo + 30)), expected);
    }
}

#[test]
fn negative_margin_counts_as_none() {
    let mut bp = DBVTBroadPhase::new(-5);
    let a = bp.create_proxy(span(0, 10), CollisionObjectHandle(0));
    let mut out = Vec::new();
    bp.interferences_with_bounding_volume(&span(10, 12), &mut out);
    assert_eq!(out, vec![CollisionObjectHandle(0)]);
    bp.remove(&[a]);
    let mut out = Vec::new();
    bp.interferences_with_bounding_volume(&span(10, 12), &mut out);
    assert_eq!(out, vec![]);
}

#[test]
fn tree_never_gets_deeper_than_it_may() {
    // Each box lies far beyond the last: the tree grows along one branch.
    let mut tree = DBVT::new();
    let mut deepest = 0;
    let mut x: i64 = 1;
    for i in 0..400usize {
        tree.insert(span(x, x + 1), i);
        x += 3 + (i as i64) * 7;
        let d = depth(tree.root.as_ref().unwrap());
        assert!(d <= MAX_DEPTH);
        deepest = deepest.max(d);
    }
    // Without building anew the tree would have some hundred levels.
    assert!(deepest > 20);
    check_boxes(tree.root.as_ref().unwrap());
    assert_eq!(sorted(hits(&tree, i64::MIN, i64::MAX)), (0..400).collect::<Vec<usize>>());
    assert_eq!(hits(&tree, 1, 2), vec![0]);
}

#[test]
fn tree_built_anew_keeps_its_leaves_in_order() {
    let mut tree = DBVT::new();
    for i in 0..9usize {
        tree.insert(span(10 * i as i64, 10 * i as i64 + 5), i);
    }
    let before = hits(&tree, i64::MIN, i64::MAX);
    let mut leaves = Vec::new();
    tree.root.as_ref().unwrap().gather(&mut leaves);
    assert_eq!(leaves.iter().map(|l| l.1).collect::<Vec<usize>>(), before);
    let root = tree.root.take().unwrap().rebuild();
    assert_eq!(depth(&root), 5);
    check_boxes(&root);
    let rebuilt = DBVT { root: Some(root) };
    assert_eq!(hits(&rebuilt, i64::MIN, i64::MAX), before);
    let small = DBVTNode::build(&leaves, 2, 4);
    assert_eq!(depth(&small), 2);
    assert!(!small.lands_deeper(&span(0, 1), 3));
    assert!(small.lands_deeper(&span(0, 1), 2));
}
