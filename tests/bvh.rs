use pbr::bvh::{AxisKeys, BvhError, BvhNode};
use rand::rngs::StdRng;
use rand::SeedableRng;

fn leaves(node: &BvhNode, out: &mut Vec<usize>) {
    match node {
        BvhNode::Object(o) => out.push(*o),
        BvhNode::Split { left, right, .. } => {
            leaves(left, out);
            leaves(right, out);
        }
    }
}

fn height(node: &BvhNode) -> usize {
    match node {
        BvhNode::Object(_) => 0,
        BvhNode::Split { left, right, .. } => 1 + height(left).max(height(right)),
    }
}

fn check_ordered(node: &BvhNode, keys: &[AxisKeys]) {
    if let BvhNode::Split { axis, left, right } = node {
        assert!(*axis < 3);
        let mut l = Vec::new();
        let mut r = Vec::new();
        leaves(left, &mut l);
        leaves(right, &mut r);
        for a in &l {
            for b in &r {
                assert!(keys[*a][*axis] <= keys[*b][*axis]);
            }
        }
        check_ordered(left, keys);
        check_ordered(right, keys);
    }
}

fn scattered_keys(n: usize) -> Vec<AxisKeys> {
    (0..n as u64)
        .map(|i| [(i * 7919) % 101, (i * 104729) % 37, 1000 - i])
        .collect()
}

#[test]
fn empty_scene_is_an_error() {
    let mut rng = StdRng::seed_from_u64(1);
    assert_eq!(BvhNode::build(&vec![], &mut rng).err(), Some(BvhError::EmptyScene));
}

#[test]
fn single_object_is_paired_with_itself() {
    let mut rng = StdRng::seed_from_u64(2);
    let tree = BvhNode::build(&vec![[5, 6, 7]], &mut rng).unwrap();
    let mut l = Vec::new();
    leaves(&tree, &mut l);
    assert_eq!(l, vec![0, 0]);
    assert_eq!(height(&tree), 1);
}

#[test]
fn two_objects_are_put_in_key_order() {
    for seed in 0..20 {
        let mut rng = StdRng::seed_from_u64(seed);
        let keys: Vec<AxisKeys> = vec![[9, 9, 9], [1, 1, 1]];
        let tree = BvhNode::build(&keys, &mut rng).unwrap();
        let mut l = Vec::new();
        leaves(&tree, &mut l);
        assert_eq!(l, vec![1, 0]);
    }
}

#[test]
fn every_object_is_reached() {
    for n in 2..40usize {
        let keys = scattered_keys(n);
        let mut rng = StdRng::seed_from_u64(n as u64);
        let tree = BvhNode::build(&keys, &mut rng).unwrap();
        let mut l = Vec::new();
        leaves(&tree, &mut l);
        l.sort();
        l.dedup();
        assert_eq!(l, (0..n).collect::<Vec<_>>());
    }
}

#[test]
fn splits_are_ordered_on_their_axis() {
    for seed in 0..10 {
        let keys = scattered_keys(33);
        let mut rng = StdRng::seed_from_u64(seed);
        let tree = BvhNode::build(&keys, &mut rng).unwrap();
        check_ordered(&tree, &keys);
    }
}

#[test]
fn tree_is_balanced() {
    let cases = [(1usize, 1usize), (2, 1), (3, 2), (4, 2), (5, 3), (8, 3), (9, 4), (64, 6), (65, 7)];
    for (n, h) in cases {
        let keys = scattered_keys(n);
        let mut rng = StdRng::seed_from_u64(7);
        let tree = BvhNode::build(&keys, &mut rng).unwrap();
        assert_eq!(height(&tree), h, "objects: {}", n);
    }
}

#[test]
fn equal_keys_keep_every_object() {
    let keys: Vec<AxisKeys> = vec![[3, 3, 3]; 10];
    let mut rng = StdRng::seed_from_u64(11);
    let tree = BvhNode::build(&keys, &mut rng).unwrap();
    let mut l = Vec::new();
    leaves(&tree, &mut l);
    l.sort();
    l.dedup();
    assert_eq!(l, (0..10).collect::<Vec<_>>());
}

fn object_hit(ts: &[Option<i64>], o: usize, end: Option<i64>) -> Option<i64> {
    match (ts[o], end) {
        (Some(t), Some(e)) if t < e => Some(t),
        (Some(t), None) => Some(t),
        _ => None,
    }
}

fn tree_closest(node: &BvhNode, ts: &[Option<i64>], end: Option<i64>) -> Option<i64> {
    match node {
        BvhNode::Object(o) => object_hit(ts, *o, end),
        BvhNode::Split { left, right, .. } => {
            let l = tree_closest(left, ts, end);
            let r = tree_closest(right, ts, if l.is_some() { l } else { end });
            if r.is_some() {
                r
            } else {
                l
            }
        }
    }
}

fn list_closest(ts: &[Option<i64>], end: Option<i64>) -> Option<i64> {
    (0..ts.len()).fold(None, |closest, o| {
        let bound = if closest.is_some() { closest } else { end };
        object_hit(ts, o, bound).or(closest)
    })
}

#[test]
fn tree_walk_matches_list_scan() {
    let n = 25;
    let keys = scattered_keys(n);
    let mut rng = StdRng::seed_from_u64(99);
    let tree = BvhNode::build(&keys, &mut rng).unwrap();
    for shift in 0..n as i64 {
        let ts: Vec<Option<i64>> = (0..n as i64)
            .map(|o| if (o + shift) % 4 == 0 { None } else { Some((o * 37 + shift * 11) % 53) })
            .collect();
        for end in [None, Some(10), Some(30), Some(0)] {
            assert_eq!(tree_closest(&tree, &ts, end), list_closest(&ts, end));
        }
    }
    let ts = vec![None; n];
    assert_eq!(tree_closest(&tree, &ts, None), None);
}

#[test]
fn split_axis_is_drawn_from_the_stream() {
    let keys = scattered_keys(6);
    let mut axes = Vec::new();
    for seed in 0..30 {
        let mut rng = StdRng::seed_from_u64(seed);
        if let BvhNode::Split { axis, .. } = BvhNode::build(&keys, &mut rng).unwrap() {
            assert!(axis < 3);
            axes.push(axis);
        }
    }
    axes.sort();
    axes.dedup();
    assert!(axes.len() > 1);
}
