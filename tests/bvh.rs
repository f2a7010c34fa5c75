use rt_weekend::bvh::{Bvh, BvhError, BvhNode};

/// Primitives on a line: each one is the interval `[lo, hi]`, struck by a ray
/// moving forward from 0 at parameter `lo`.
fn intervals(seed: u64, n: usize) -> Vec<(f64, f64)> {
    let mut state = seed;
    let mut next = || {
        state = state.wrapping_mul(6364136223846793005).wrapping_add(1442695040888963407);
        ((state >> 11) as f64) / ((1u64 << 53) as f64)
    };
    (0..n)
        .map(|_| {
            let lo = next() * 100.0;
            (lo, lo + next())
        })
        .collect()
}

fn build_midpoint(items: &[(f64, f64)]) -> Result<Bvh, BvhError> {
    let split = |subset: &Vec<usize>| -> Option<Vec<bool>> {
        let centre = |i: usize| (items[i].0 + items[i].1) / 2.0;
        let lo = subset.iter().map(|&i| centre(i)).fold(f64::INFINITY, f64::min);
        let hi = subset.iter().map(|&i| centre(i)).fold(f64::NEG_INFINITY, f64::max);
        if lo == hi {
            return None;
        }
        let mid = (lo + hi) / 2.0;
        Some(subset.iter().map(|&i| centre(i) < mid).collect())
    };
    Bvh::build(items.len(), &split)
}

fn leaves_items(bvh: &Bvh) -> Vec<usize> {
    let mut all = Vec::new();
    for i in 0..bvh.node_count() {
        if let BvhNode::Leaf { items } = bvh.node(i) {
            all.extend(items.iter().copied());
        }
    }
    all
}

fn node_bounds(bvh: &Bvh, items: &[(f64, f64)]) -> Vec<(f64, f64)> {
    let mut bounds: Vec<(f64, f64)> = Vec::new();
    for i in 0..bvh.node_count() {
        let b = match bvh.node(i) {
            BvhNode::Leaf { items: leaf } => leaf.iter().fold((f64::INFINITY, f64::NEG_INFINITY), |acc, &p| {
                (acc.0.min(items[p].0), acc.1.max(items[p].1))
            }),
            BvhNode::Branch { left, right } => {
                (bounds[*left].0.min(bounds[*right].0), bounds[*left].1.max(bounds[*right].1))
            }
        };
        bounds.push(b);
    }
    bounds
}

fn closest_by_bvh(bvh: &Bvh, items: &[(f64, f64)], t_min: f64, t_max: f64) -> Option<(usize, f64)> {
    let bounds = node_bounds(bvh, items);
    let box_hit = |n: usize, a: f64, b: f64| bounds[n].1 >= a && bounds[n].0 <= b;
    let prim_hit = |p: usize, a: f64, b: f64| {
        let t = items[p].0;
        if t >= a && t <= b {
            Some((p, t))
        } else {
            None
        }
    };
    let t_of = |h: &(usize, f64)| h.1;
    bvh.hit(t_min, t_max, &box_hit, &prim_hit, &t_of)
}

fn closest_by_scan(items: &[(f64, f64)], t_min: f64, t_max: f64) -> Option<(usize, f64)> {
    let mut best: Option<(usize, f64)> = None;
    let mut closest = t_max;
    for (p, item) in items.iter().enumerate() {
        let t = item.0;
        if t >= t_min && t <= closest {
            closest = t;
            best = Some((p, t));
        }
    }
    best
}

#[test]
fn build_empty_has_no_nodes() {
    let bvh = build_midpoint(&[]).unwrap();
    assert_eq!(bvh.node_count(), 0);
    let none = closest_by_bvh(&bvh, &[], 0.0, f64::INFINITY);
    assert!(none.is_none());
}

#[test]
fn build_single_is_one_leaf() {
    let items = vec![(1.0, 2.0)];
    let bvh = build_midpoint(&items).unwrap();
    assert_eq!(bvh.node_count(), 1);
    match bvh.node(0) {
        BvhNode::Leaf { items } => assert_eq!(items, &vec![0]),
        BvhNode::Branch { .. } => panic!("expected a leaf"),
    }
}

#[test]
fn build_coincident_centroids_is_one_leaf() {
    let items = vec![(1.0, 3.0), (2.0, 2.0), (0.0, 4.0)];
    let bvh = build_midpoint(&items).unwrap();
    assert_eq!(bvh.node_count(), 1);
    match bvh.node(0) {
        BvhNode::Leaf { items } => assert_eq!(items, &vec![0, 1, 2]),
        BvhNode::Branch { .. } => panic!("expected a leaf"),
    }
}

#[test]
fn build_every_item_in_exactly_one_leaf() {
    for n in [1usize, 2, 10, 1000] {
        let items = intervals(n as u64 + 7, n);
        let bvh = build_midpoint(&items).unwrap();
        assert!(bvh.node_count() <= 2 * n - 1);
        let mut all = leaves_items(&bvh);
        all.sort();
        assert_eq!(all, (0..n).collect::<Vec<_>>());
    }
}

#[test]
fn build_children_precede_parents() {
    let items = intervals(3, 50);
    let bvh = build_midpoint(&items).unwrap();
    let mut parents = vec![0usize; bvh.node_count()];
    for i in 0..bvh.node_count() {
        if let BvhNode::Branch { left, right } = bvh.node(i) {
            assert!(*left < i && *right < i);
            parents[*left] += 1;
            parents[*right] += 1;
        }
    }
    let root = bvh.node_count() - 1;
    for (i, count) in parents.iter().enumerate() {
        assert_eq!(*count, if i == root { 0 } else { 1 });
    }
}

#[test]
fn build_one_sided_split_fails() {
    let split = |s: &Vec<usize>| Some(vec![true; s.len()]);
    assert!(matches!(Bvh::build(3, &split), Err(BvhError::DegeneratePartition)));
    let split = |s: &Vec<usize>| Some(vec![false; s.len()]);
    assert!(matches!(Bvh::build(2, &split), Err(BvhError::DegeneratePartition)));
}

#[test]
fn build_mismatched_split_fails() {
    let split = |s: &Vec<usize>| Some(vec![true; s.len() + 1]);
    assert!(matches!(Bvh::build(4, &split), Err(BvhError::SideCountMismatch)));
}

#[test]
fn build_halving_split_shape() {
    let split = |s: &Vec<usize>| Some((0..s.len()).map(|k| k < s.len() / 2).collect::<Vec<bool>>());
    let bvh = Bvh::build(4, &split).unwrap();
    assert_eq!(bvh.node_count(), 7);
    assert_eq!(leaves_items(&bvh), vec![0, 1, 2, 3]);
    match bvh.node(6) {
        BvhNode::Branch { left, right } => {
            assert_eq!(*left, 2);
            assert_eq!(*right, 5);
        }
        BvhNode::Leaf { .. } => panic!("expected a branch at the root"),
    }
}

#[test]
fn traversal_matches_linear_scan() {
    for n in [1usize, 2, 10, 1000] {
        for seed in 0..5u64 {
            let items = intervals(seed * 31 + n as u64, n);
            let bvh = build_midpoint(&items).unwrap();
            for (t_min, t_max) in [(0.0, f64::INFINITY), (20.0, 60.0), (50.0, 50.5), (101.0, 200.0)] {
                let a = closest_by_bvh(&bvh, &items, t_min, t_max);
                let b = closest_by_scan(&items, t_min, t_max);
                assert_eq!(a.map(|h| h.1), b.map(|h| h.1));
            }
        }
    }
}

#[test]
fn traversal_prefers_closer_right_hit() {
    let items = vec![(5.0, 6.0), (2.0, 3.0)];
    let split = |s: &Vec<usize>| Some((0..s.len()).map(|k| k == 0).collect::<Vec<bool>>());
    let bvh = Bvh::build(2, &split).unwrap();
    assert_eq!(closest_by_bvh(&bvh, &items, 0.0, 100.0), Some((1, 2.0)));
}

#[test]
fn traversal_missed_root_box_gives_none() {
    let items = vec![(5.0, 6.0), (2.0, 3.0)];
    let bvh = build_midpoint(&items).unwrap();
    let box_hit = |_: usize, _: f64, _: f64| false;
    let prim_hit = |p: usize, _: f64, _: f64| Some((p, items[p].0));
    let t_of = |h: &(usize, f64)| h.1;
    assert_eq!(bvh.hit(0.0, 100.0, &box_hit, &prim_hit, &t_of), None);
}

#[test]
fn build_small_scenes_never_ask_the_split() {
    let split = |_: &Vec<usize>| -> Option<Vec<bool>> { panic!("a set of fewer than two primitives was split") };
    let empty = Bvh::build(0, &split).unwrap();
    assert_eq!(empty.node_count(), 0);
    let one = Bvh::build(1, &split).unwrap();
    assert_eq!(one.node_count(), 1);
    match one.node(0) {
        BvhNode::Leaf { items } => assert_eq!(items, &vec![0]),
        BvhNode::Branch { .. } => panic!("expected a leaf"),
    }
}

#[test]
fn build_children_are_the_split_sides() {
    // The split sends even indices left; each set it sees is recorded.
    let seen = std::cell::RefCell::new(Vec::new());
    let split = |s: &Vec<usize>| {
        seen.borrow_mut().push(s.clone());
        let sides: Vec<bool> = s.iter().map(|&i| i % 2 == 0).collect();
        if sides.iter().all(|&b| b) || sides.iter().all(|&b| !b) {
            None
        } else {
            Some(sides)
        }
    };
    let bvh = Bvh::build(5, &split).unwrap();
    assert_eq!(seen.borrow().clone(), vec![vec![0, 1, 2, 3, 4], vec![0, 2, 4], vec![1, 3]]);
    assert_eq!(bvh.node_count(), 3);
    match bvh.node(0) {
        BvhNode::Leaf { items } => assert_eq!(items, &vec![0, 2, 4]),
        BvhNode::Branch { .. } => panic!("expected a leaf"),
    }
    match bvh.node(1) {
        BvhNode::Leaf { items } => assert_eq!(items, &vec![1, 3]),
        BvhNode::Branch { .. } => panic!("expected a leaf"),
    }
    match bvh.node(2) {
        BvhNode::Branch { left, right } => assert_eq!((*left, *right), (0, 1)),
        BvhNode::Leaf { .. } => panic!("expected a branch"),
    }
}
