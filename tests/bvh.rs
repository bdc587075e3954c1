use tracer::accel::{flagged_ids, ObjectId, SmallId};
use tracer::bvh::{flag_of, sah_plane_count, BVHSplitStrategy, BvhTree, NodeKind};

fn leaf_ids(tree: &BvhTree, node: usize, out: &mut Vec<u32>) {
    match tree.node(node) {
        NodeKind::Leaf { start, len } => {
            for i in start..start + len {
                out.push(tree.ids()[i as usize].index);
            }
        }
        NodeKind::Branch { left_index } => {
            leaf_ids(tree, left_index as usize, out);
            leaf_ids(tree, left_index as usize + 1, out);
        }
    }
}

fn all_ids(tree: &BvhTree) -> Vec<u32> {
    let mut out = Vec::new();
    if tree.node_count() > 0 {
        leaf_ids(tree, 0, &mut out);
    }
    out.extend(tree.global_ids().iter().map(|id| id.index));
    out.sort();
    out
}

#[test]
fn small_id_to_large() {
    assert_eq!(SmallId { index: 7 }.to_large(), ObjectId { index: 7 });
    assert_eq!(SmallId { index: u32::MAX }.to_large().index, u32::MAX as usize);
}

#[test]
fn new_separates_unbounded_objects() {
    let finite = vec![true, false, true, true, false];
    let tree = BvhTree::new(&finite);
    assert_eq!(tree.object_count(), 5);
    assert_eq!(tree.node_count(), 1);
    assert_eq!(tree.node(0), NodeKind::Leaf { start: 0, len: 3 });
    assert!(tree.ids().iter().all(|id| finite[id.index as usize]));
    assert!(tree.global_ids().iter().all(|id| !finite[id.index as usize]));
    assert_eq!(tree.global_ids().len(), 2);
    assert_eq!(all_ids(&tree), vec![0, 1, 2, 3, 4]);
}

#[test]
fn new_with_only_unbounded_objects_has_no_nodes() {
    let tree = BvhTree::new(&vec![false, false]);
    assert_eq!(tree.node_count(), 0);
    assert!(tree.ids().is_empty());
    assert_eq!(all_ids(&tree), vec![0, 1]);
}

#[test]
fn new_with_no_objects() {
    let tree = BvhTree::new(&Vec::new());
    assert_eq!(tree.object_count(), 0);
    assert_eq!(tree.node_count(), 0);
    assert!(tree.global_ids().is_empty());
}

#[test]
fn split_leaf_makes_two_children() {
    let mut tree = BvhTree::new(&vec![true; 6]);
    let flags = vec![false, true, false, true, true, false];
    let left = tree.split_leaf(0, &flags);
    assert_eq!(left, Some(1));
    assert_eq!(tree.node(0), NodeKind::Branch { left_index: 1 });
    assert_eq!(tree.node(1), NodeKind::Leaf { start: 0, len: 3 });
    assert_eq!(tree.node(2), NodeKind::Leaf { start: 3, len: 3 });
    let ids: Vec<u32> = tree.ids().iter().map(|id| id.index).collect();
    assert!(ids[..3].iter().all(|&i| flags[i as usize]));
    assert!(ids[3..].iter().all(|&i| !flags[i as usize]));
    assert_eq!(all_ids(&tree), vec![0, 1, 2, 3, 4, 5]);
}

#[test]
fn split_leaf_refuses_one_sided_split() {
    let mut tree = BvhTree::new(&vec![true; 4]);
    assert_eq!(tree.split_leaf(0, &vec![true; 4]), None);
    assert_eq!(tree.split_leaf(0, &vec![false; 4]), None);
    assert_eq!(tree.node_count(), 1);
    assert_eq!(tree.node(0), NodeKind::Leaf { start: 0, len: 4 });
}

#[test]
fn repeated_splits_keep_each_object_once() {
    let n = 64u32;
    let finite: Vec<bool> = (0..n).map(|i| i % 5 != 0).collect();
    let mut tree = BvhTree::new(&finite);
    let mut stack = vec![0u32];
    let mut bit = 0;
    while let Some(node) = stack.pop() {
        if let NodeKind::Leaf { len, .. } = tree.node(node as usize) {
            if len < 2 {
                continue;
            }
        }
        let flags: Vec<bool> = (0..n).map(|i| (i >> (bit % 6)) & 1 == 1).collect();
        bit += 1;
        if let Some(left) = tree.split_leaf(node, &flags) {
            stack.push(left);
            stack.push(left + 1);
        }
    }
    assert!(tree.node_count() > 1);
    assert_eq!(all_ids(&tree), (0..n).collect::<Vec<_>>());
    for i in 0..tree.node_count() {
        if let NodeKind::Leaf { len, .. } = tree.node(i) {
            assert!(len >= 1);
        }
    }
}

#[test]
fn flag_of_reads_the_object_flag() {
    let flags = vec![false, true];
    assert!(flag_of(&flags, &SmallId { index: 1 }));
    assert!(!flag_of(&flags, &SmallId { index: 0 }));
}

#[test]
fn sah_plane_count_cases() {
    assert_eq!(sah_plane_count(10, None), None);
    assert_eq!(sah_plane_count(10, Some(4)), Some(4));
    assert_eq!(sah_plane_count(4, Some(4)), None);
    assert_eq!(sah_plane_count(3, Some(4)), None);
}

#[test]
fn split_strategy_default() {
    assert_eq!(BVHSplitStrategy::default(), BVHSplitStrategy::SplitLargestAxis);
}

#[test]
fn flagged_ids_keeps_id_order() {
    let ids = flagged_ids(&vec![false, true, true, false, true]);
    assert_eq!(ids, vec![ObjectId { index: 1 }, ObjectId { index: 2 }, ObjectId { index: 4 }]);
    assert!(flagged_ids(&vec![false, false]).is_empty());
    assert!(flagged_ids(&Vec::new()).is_empty());
}
