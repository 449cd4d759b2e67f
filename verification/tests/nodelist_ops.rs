use tsreduce::nodelist::InterestingNode;
use tsreduce::nodelist::InterestingNodeList;

fn leaf(start: usize, end: usize) -> InterestingNode {
    InterestingNode {
        start,
        end,
        replace_with: Vec::new(),
        children: InterestingNodeList { nodes: Vec::new() },
    }
}

fn nested() -> InterestingNodeList {
    // [0..4 [1..2, 2..3]], [6..8], [10..15 [11..14]]
    let inner = InterestingNodeList { nodes: vec![leaf(1, 2), leaf(2, 3)] };
    let a = InterestingNode { start: 0, end: 4, replace_with: Vec::new(), children: inner };
    let b = leaf(6, 8);
    let inner2 = InterestingNodeList { nodes: vec![leaf(11, 14)] };
    let c = InterestingNode { start: 10, end: 15, replace_with: Vec::new(), children: inner2 };
    InterestingNodeList { nodes: vec![a, b, c] }
}

#[test]
fn count_bytes_sums_top_level_ranges() {
    let list = nested();
    assert_eq!(list.count_bytes(), 4 + 2 + 5);
}

#[test]
fn check_sorted_accepts_ordered_ranges() {
    let list = nested();
    assert!(list.check_sorted());
}

#[test]
fn check_sorted_rejects_overlap() {
    let list = InterestingNodeList { nodes: vec![leaf(0, 5), leaf(3, 8)] };
    assert!(!list.check_sorted());
}

#[test]
fn remove_front_peels_whole_nodes() {
    let mut list = nested();
    // The first node (4 bytes) is peeled whole; the quota is then spent,
    // and the next node (2 bytes, no children) is opened and gives up its
    // own bytes too.
    let removed = list.try_remove_front(4);
    assert_eq!(removed, 6);
    assert_eq!(list.count_bytes(), 5);
    assert!(list.check_sorted());
    assert_eq!(list.nodes.len(), 1);
    assert_eq!(list.nodes[0].start, 10);
}

#[test]
fn remove_front_opens_an_oversized_node() {
    let mut list = nested();
    // Asking for 2 bytes opens the first node (own bytes 4 - 2 = 2) and
    // promotes its children, which then absorb the remaining quota.
    let removed = list.try_remove_front(2);
    assert!(removed >= 1);
    assert_eq!(list.count_bytes(), 11 - removed);
    assert!(list.check_sorted());
}

#[test]
fn remove_back_mirrors_front() {
    let mut list = nested();
    // The last node (5 bytes) is peeled whole; the middle node (2 bytes,
    // no children) is then opened and gives up its own bytes too.
    let removed = list.try_remove_back(5);
    assert_eq!(removed, 7);
    assert_eq!(list.count_bytes(), 4);
    assert!(list.check_sorted());
    assert_eq!(list.nodes.len(), 1);
    assert_eq!(list.nodes[0].start, 0);
}

#[test]
fn remove_back_opens_the_last_node() {
    let mut list = nested();
    // 3 bytes: the last node (5 bytes) is opened; its own bytes are
    // 5 - 3 = 2, and its child (3 bytes) takes over its place.
    let removed = list.try_remove_back(3);
    assert!(removed >= 1);
    assert_eq!(list.count_bytes(), 11 - removed);
    assert!(list.check_sorted());
}

#[test]
fn removal_keeps_lists_sorted_under_repeated_use() {
    let mut list = nested();
    let mut total = list.count_bytes();
    while total > 0 {
        let removed = list.try_remove_front(1);
        assert!(removed >= 1);
        assert!(list.check_sorted());
        total -= removed;
        assert_eq!(list.count_bytes(), total);
    }
    assert_eq!(list.nodes.len(), 0);
}

#[test]
fn into_ranges_flattens_top_level() {
    let list = nested();
    let ranges = list.into_ranges();
    assert_eq!(ranges.len(), 3);
    assert_eq!((ranges[0].start, ranges[0].end), (0, 4));
    assert_eq!((ranges[1].start, ranges[1].end), (6, 8));
    assert_eq!((ranges[2].start, ranges[2].end), (10, 15));
}
