use renderer::{chunk_ends, make_bvh, traverse_bvh, BoundingBox, BVH_LEAF_MAX};

/// Closed interval on a line, standing in for a primitive's bounds.
type Span = (i64, i64);

fn union(a: Span, b: Span) -> Span {
    (a.0.min(b.0), a.1.max(b.1))
}

fn span_of(spans: &[Span]) -> Span {
    spans.iter().copied().fold(spans[0], union)
}

/// Builds a hierarchy over `spans`, sorting each range by its lower ends and
/// cutting it at the middle.
fn build(spans: &mut Vec<Span>) -> Vec<BoundingBox<Span>> {
    let cell = std::cell::RefCell::new(spans.clone());
    let split = |start: usize, end: usize| {
        let mut items = cell.borrow_mut();
        items[start..end].sort_by_key(|s| s.0);
        let mid = start + (end - start) / 2;
        (mid, span_of(&items[start..mid]), span_of(&items[mid..end]))
    };
    let root = span_of(spans);
    let tree = make_bvh(&split, root, 0, spans.len());
    *spans = cell.into_inner();
    tree
}

fn check_shape(tree: &[BoundingBox<Span>], count: usize) {
    assert_eq!(tree[0].start_index, 0);
    assert_eq!(tree[0].end_index as usize, count);
    assert_eq!(tree[0].descendant_count as usize, tree.len() - 1);
    for (j, node) in tree.iter().enumerate() {
        assert!(node.start_index < node.end_index);
        let last = j + node.descendant_count as usize;
        assert!(last < tree.len());
        let size = (node.end_index - node.start_index) as usize;
        assert_eq!(node.descendant_count == 0, size <= BVH_LEAF_MAX);
        if node.descendant_count > 0 {
            let left = &tree[j + 1];
            let right = &tree[j + 2 + left.descendant_count as usize];
            assert_eq!(left.start_index, node.start_index);
            assert_eq!(left.end_index, right.start_index);
            assert_eq!(right.end_index, node.end_index);
            assert_eq!(
                node.descendant_count,
                left.descendant_count + right.descendant_count + 2
            );
        }
    }
    let mut next_start = 0;
    for node in tree.iter().filter(|n| n.descendant_count == 0) {
        assert_eq!(node.start_index, next_start);
        next_start = node.end_index;
    }
    assert_eq!(next_start as usize, count);
    let mut owners = vec![0; count];
    for node in tree.iter().filter(|n| n.descendant_count == 0) {
        for p in node.start_index..node.end_index {
            owners[p as usize] += 1;
        }
    }
    assert!(owners.iter().all(|&n| n == 1));
}

#[test]
fn chunk_ends_one_per_primitive() {
    assert_eq!(chunk_ends(0, 10), (1..=10).collect::<Vec<usize>>());
}

#[test]
fn chunk_ends_spreads_remainder_first() {
    let ends = chunk_ends(5, 100);
    assert_eq!(ends.len(), 41);
    assert_eq!(ends[0], 8);
    assert_eq!(ends[17], 59);
    assert_eq!(ends[18], 61);
    assert_eq!(ends[40], 105);
    for c in 1..ends.len() {
        let size = ends[c] - ends[c - 1];
        assert!(size == 2 || size == 3);
    }
}

#[test]
fn small_range_is_a_single_leaf() {
    let split = |_: usize, _: usize| -> (usize, Span, Span) { panic!("a leaf is not split") };
    let tree = make_bvh(&split, (0, 3), 2, 2 + BVH_LEAF_MAX);
    assert_eq!(tree.len(), 1);
    assert_eq!(tree[0].start_index, 2);
    assert_eq!(tree[0].end_index as usize, 2 + BVH_LEAF_MAX);
    assert_eq!(tree[0].descendant_count, 0);
    assert_eq!(tree[0].bounds, (0, 3));
}

#[test]
fn split_points_shape_the_tree() {
    let split = |start: usize, _: usize| (start + 3, (10, 20), (30, 40));
    let tree = make_bvh(&split, (0, 50), 0, 8);
    let shape: Vec<(u32, u32, u32)> =
        tree.iter().map(|n| (n.start_index, n.end_index, n.descendant_count)).collect();
    assert_eq!(shape, vec![(0, 8, 4), (0, 3, 0), (3, 8, 2), (3, 6, 0), (6, 8, 0)]);
    let bounds: Vec<Span> = tree.iter().map(|n| n.bounds).collect();
    assert_eq!(bounds, vec![(0, 50), (10, 20), (30, 40), (10, 20), (30, 40)]);
}

#[test]
fn split_outside_the_range_falls_back_to_the_middle() {
    let split = |_: usize, end: usize| (end, (0, 0), (0, 0));
    let tree = make_bvh(&split, (0, 0), 0, 8);
    assert_eq!(tree.len(), 3);
    assert_eq!(tree[0].descendant_count, 2);
    assert_eq!(tree[1].end_index, 4);
    assert_eq!(tree[2].start_index, 4);
}

#[test]
fn built_tree_is_well_formed() {
    let mut spans: Vec<Span> = (0..37).map(|i| ((i * 7919) % 101, (i * 7919) % 101 + 3)).collect();
    let tree = build(&mut spans);
    check_shape(&tree, spans.len());
}

#[test]
fn missed_root_tests_nothing() {
    let mut spans: Vec<Span> = (0..20).map(|i| (i, i + 1)).collect();
    let tree = build(&mut spans);
    assert!(traverse_bvh(&tree, spans.len(), |_| false).is_empty());
}

#[test]
fn always_hit_lists_every_leaf_in_order() {
    let mut spans: Vec<Span> = (0..20).map(|i| (i, i + 1)).collect();
    let tree = build(&mut spans);
    let leaves = traverse_bvh(&tree, spans.len(), |_| true);
    let expected: Vec<usize> =
        (0..tree.len()).filter(|&j| tree[j].descendant_count == 0).collect();
    assert_eq!(leaves, expected);
    let covered: usize = leaves.iter().map(|&l| (tree[l].end_index - tree[l].start_index) as usize).sum();
    assert_eq!(covered, spans.len());
}

#[test]
fn traversal_matches_exhaustive_scan() {
    let mut state: u64 = 12345;
    let mut next = move || {
        state = state.wrapping_mul(6364136223846793005).wrapping_add(1442695040888963407);
        (state >> 33) as i64
    };
    for _ in 0..20 {
        let count = 1 + (next() % 200) as usize;
        let mut spans: Vec<Span> = (0..count)
            .map(|_| {
                let a = next() % 1000;
                (a, a + next() % 50)
            })
            .collect();
        let tree = build(&mut spans);
        check_shape(&tree, count);
        for _ in 0..20 {
            let x = next() % 1050;
            let leaves = traverse_bvh(&tree, count, |j| tree[j].bounds.0 <= x && x <= tree[j].bounds.1);
            let mut found: Vec<usize> = leaves
                .iter()
                .flat_map(|&l| tree[l].start_index as usize..tree[l].end_index as usize)
                .filter(|&p| spans[p].0 <= x && x <= spans[p].1)
                .collect();
            found.sort();
            let all: Vec<usize> = (0..count).filter(|&p| spans[p].0 <= x && x <= spans[p].1).collect();
            assert_eq!(found, all);
        }
    }
}

#[test]
fn one_more_than_a_leaf_is_split() {
    let split = |start: usize, end: usize| (start + (end - start) / 2, (1, 2), (3, 4));
    let tree = make_bvh(&split, (0, 9), 0, BVH_LEAF_MAX + 1);
    assert_eq!(tree.len(), 3);
    assert_eq!(tree[1].end_index as usize, (BVH_LEAF_MAX + 1) / 2);
}

#[test]
fn single_leaf_tree_is_listed_when_hit() {
    let split = |_: usize, _: usize| -> (usize, Span, Span) { panic!("a leaf is not split") };
    let tree = make_bvh(&split, (0, 1), 0, 1);
    assert_eq!(traverse_bvh(&tree, 1, |_| true), vec![0]);
    assert!(traverse_bvh(&tree, 1, |_| false).is_empty());
}
