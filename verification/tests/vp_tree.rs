use engramai::score::Score;
use engramai::synthesis::neighbors::{split_at_median, NearestHeap};
use engramai::synthesis::vp_tree::VpTree;

fn wide(x: f32) -> Score {
    Score { bits: (x as f64).to_bits() }
}

fn num(s: Score) -> f32 {
    f64::from_bits(s.bits) as f32
}

fn l2(a: &[f32], b: &[f32]) -> f32 {
    a.iter().zip(b.iter()).map(|(x, y)| (x - y) * (x - y)).sum::<f32>().sqrt()
}

fn beyond(d: Score, tau: Score, t: Score) -> bool {
    num(d) + num(tau) > num(t)
}

fn within(d: Score, tau: Score, t: Score) -> bool {
    num(d) - num(tau) <= num(t)
}

fn nearest(raw: &[Vec<f32>], query: usize, k: usize) -> Vec<(usize, f32)> {
    let distance = |i: usize, j: usize| wide(l2(&raw[i], &raw[j]));
    let tree = VpTree::build(raw.len(), &distance);
    assert_eq!(tree.nodes.len(), raw.len());
    tree.query_k_nearest(query, k, &distance, &beyond, &within)
        .iter()
        .map(|(i, d)| (*i, num(*d)))
        .collect()
}

#[test]
fn test_vp_tree_build_and_query() {
    let raw: Vec<Vec<f32>> = vec![
        vec![0.0, 0.0, 0.0],
        vec![1.0, 0.0, 0.0],
        vec![0.0, 1.0, 0.0],
        vec![0.0, 0.0, 1.0],
        vec![1.0, 1.0, 0.0],
        vec![1.0, 0.0, 1.0],
        vec![0.0, 1.0, 1.0],
        vec![1.0, 1.0, 1.0],
        vec![0.5, 0.5, 0.5],
        vec![0.1, 0.1, 0.1],
    ];
    let result = nearest(&raw, 0, 3);
    assert_eq!(result.len(), 3);
    assert_eq!(result[0].0, 9);
    assert_eq!(result[1].0, 8);
    assert!([1, 2, 3].contains(&result[2].0));
}

#[test]
fn test_vp_tree_single_point() {
    let raw = vec![vec![1.0_f32, 2.0, 3.0]];
    assert!(nearest(&raw, 0, 3).is_empty());
}

#[test]
fn test_vp_tree_two_points() {
    let raw = vec![vec![0.0_f32, 0.0], vec![1.0_f32, 0.0]];
    let result = nearest(&raw, 0, 5);
    assert_eq!(result.len(), 1);
    assert_eq!(result[0].0, 1);
    assert!((result[0].1 - 1.0).abs() < 1e-6);

    let result = nearest(&raw, 1, 5);
    assert_eq!(result.len(), 1);
    assert_eq!(result[0].0, 0);
}

#[test]
fn test_vp_tree_excludes_self() {
    let raw = vec![vec![0.0_f32, 0.0], vec![1.0, 0.0], vec![2.0, 0.0], vec![3.0, 0.0]];
    for i in 0..4 {
        let result = nearest(&raw, i, 10);
        assert!(!result.iter().any(|(idx, _)| *idx == i));
        assert_eq!(result.len(), 3);
    }
}

#[test]
fn a_search_agrees_with_looking_at_every_point() {
    let mut raw: Vec<Vec<f32>> = Vec::new();
    let mut state: u32 = 12345;
    for _ in 0..60 {
        let mut v = Vec::new();
        for _ in 0..3 {
            state = state.wrapping_mul(1_664_525).wrapping_add(1_013_904_223);
            v.push((state >> 16) as f32 / 65536.0);
        }
        raw.push(v);
    }
    for query in 0..raw.len() {
        let found: Vec<f32> = nearest(&raw, query, 5).iter().map(|x| x.1).collect();
        let mut all: Vec<f32> =
            (0..raw.len()).filter(|i| *i != query).map(|i| l2(&raw[query], &raw[i])).collect();
        all.sort_by(|a, b| a.partial_cmp(b).unwrap());
        assert_eq!(found, all[..5].to_vec());
    }
}

#[test]
fn nothing_is_found_without_room_or_query() {
    let raw = vec![vec![0.0_f32], vec![1.0]];
    assert!(nearest(&raw, 0, 0).is_empty());
    assert!(nearest(&raw, 7, 3).is_empty());
    assert!(nearest(&[], 0, 3).is_empty());
}

#[test]
fn a_node_splits_at_the_median() {
    let place = [0.0_f32, 4.0, 1.0, 3.0, 2.0];
    let distance = |i: usize, j: usize| wide((place[i] - place[j]).abs());
    let tree = VpTree::build(5, &distance);
    assert_eq!(tree.nodes[0].point, 0);
    assert_eq!(num(tree.nodes[0].threshold), 3.0);
    // Nearer ones first: 2, 4 and 3 on the left, 1 on the right.
    let left = tree.nodes[tree.nodes[0].left.unwrap()];
    assert_eq!(left.point, 2);
    let right = tree.nodes[tree.nodes[0].right.unwrap()];
    assert_eq!(right.point, 1);
    assert!(right.left.is_none() && right.right.is_none());
    assert_eq!(num(right.threshold), 0.0);
}

#[test]
fn a_side_that_is_judged_out_is_not_searched() {
    let place = [0.0_f32, 1.0, 2.0];
    let distance = |i: usize, j: usize| wide((place[i] - place[j]).abs());
    let never = |_: Score, _: Score, _: Score| false;
    let tree = VpTree::build(3, &distance);
    // From point 0 both others stand on the left.
    let found = tree.query_k_nearest(0, 5, &distance, &never, &never);
    assert_eq!(found.len(), 2);
    // From point 2 the search starts on one side and stays there.
    let some = tree.query_k_nearest(2, 5, &distance, &never, &never);
    assert!(some.len() <= 2 && some.iter().all(|x| x.0 != 2));
}

#[test]
fn the_heap_keeps_the_nearest() {
    let mut heap = NearestHeap::new(3);
    for (i, d) in [5.0_f32, 1.0, 4.0, 2.0, 3.0, 9.0].iter().enumerate() {
        heap.offer(wide(*d), i);
    }
    assert_eq!(num(heap.items[0].0), 3.0);
    let sorted: Vec<(usize, f32)> =
        heap.into_sorted().iter().map(|(i, d)| (*i, num(*d))).collect();
    assert_eq!(sorted, vec![(1, 1.0), (3, 2.0), (4, 3.0)]);
}

#[test]
fn the_median_goes_to_the_left() {
    let split = split_at_median(&vec![7, 8, 9, 6], &vec![
        wide(4.0),
        wide(1.0),
        wide(3.0),
        wide(1.0),
    ]);
    assert_eq!(num(split.threshold), 3.0);
    assert_eq!(split.left, vec![8, 6, 9]);
    assert_eq!(split.right, vec![7]);
}
