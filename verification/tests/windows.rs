use unei::editing::commands::SplitDir;
use unei::editor::windows::{normalized, Node, WinState};

#[test]
fn same_direction_split_flattens() {
    let mut node = Node::leaf(1, None);
    node.split(
        1,
        SplitDir::Vertical,
        Node::leaf(2, Some(WinState::default())),
    );
    node.split(
        1,
        SplitDir::Vertical,
        Node::leaf(3, Some(WinState::default())),
    );
    match &node {
        Node::Split { children, .. } => assert_eq!(children.len(), 3),
        _ => panic!("expected flat split"),
    }
    assert_eq!(node.window_ids(), vec![1, 3, 2]);
}

#[test]
fn close_collapses_singletons() {
    let mut node = Node::leaf(1, None);
    node.split(
        1,
        SplitDir::Vertical,
        Node::leaf(2, Some(WinState::default())),
    );
    node.split(
        1,
        SplitDir::Horizontal,
        Node::leaf(3, Some(WinState::default())),
    );
    assert_eq!(node.window_count(), 3);
    node.close(3);
    assert_eq!(node.window_count(), 2);
    node.close(2);
    assert!(matches!(node, Node::Leaf { id: 1, .. }));
}

#[test]
fn normalized_sums_to_total() {
    assert_eq!(normalized(&[1, 1, 1], 80).iter().sum::<u16>(), 80);
    assert_eq!(normalized(&[3, 1], 7).iter().sum::<u16>(), 7);
    assert_eq!(normalized(&[10, 10], 21), vec![11, 10]);
}

#[test]
fn split_of_a_missing_window_changes_nothing() {
    let mut node = Node::leaf(1, None);
    assert!(!node.split(9, SplitDir::Vertical, Node::leaf(2, None)));
    assert_eq!(node.window_ids(), vec![1]);
    assert!(node.contains(1) && !node.contains(2));
}

#[test]
fn closing_the_last_window_is_refused() {
    let mut node = Node::leaf(1, None);
    assert!(!node.close(1));
    assert_eq!(node.window_count(), 1);
}

#[test]
fn flattening_split_halves_the_share() {
    let mut node = Node::leaf(1, None);
    node.split(1, SplitDir::Vertical, Node::leaf(2, None));
    node.split(2, SplitDir::Vertical, Node::leaf(3, None));
    match &node {
        Node::Split { sizes, .. } => assert_eq!(sizes, &vec![1, 1, 1]),
        _ => panic!("expected a split"),
    }
    node.split(1, SplitDir::Vertical, Node::leaf(4, None));
    assert_eq!(node.window_ids(), vec![1, 4, 2, 3]);
}

#[test]
fn nested_close_merges_same_direction_frames() {
    // [1 | (2 / 3)] then closing 3 leaves [1 | 2] flat
    let mut node = Node::leaf(1, None);
    node.split(1, SplitDir::Vertical, Node::leaf(2, None));
    node.split(2, SplitDir::Horizontal, Node::leaf(3, None));
    assert_eq!(node.window_ids(), vec![1, 2, 3]);
    assert!(node.close(3));
    match &node {
        Node::Split { children, dir, .. } => {
            assert_eq!(children.len(), 2);
            assert_eq!(*dir, SplitDir::Vertical);
        }
        _ => panic!("expected a split"),
    }
    assert_eq!(node.window_ids(), vec![1, 2]);
}

#[test]
fn rotate_flip_and_equalize_keep_the_windows() {
    let mut node = Node::leaf(1, None);
    node.split(1, SplitDir::Vertical, Node::leaf(2, None));
    node.split(2, SplitDir::Vertical, Node::leaf(3, None));
    node.rotate(2);
    assert_eq!(node.window_ids(), vec![3, 1, 2]);
    node.flip(1);
    match &node {
        Node::Split { dir, sizes, .. } => {
            assert_eq!(*dir, SplitDir::Horizontal);
            assert_eq!(sizes, &vec![1, 1, 1]);
        }
        _ => panic!("expected a split"),
    }
    node.equalize();
    assert_eq!(node.window_ids(), vec![3, 1, 2]);
}

#[test]
fn normalized_edge_cases() {
    assert_eq!(normalized(&[], 10), Vec::<u16>::new());
    // fewer cells than children: one each
    assert_eq!(normalized(&[5, 5, 5], 2), vec![1, 1, 1]);
    // overshoot from the one-cell floor is taken back left to right
    assert_eq!(normalized(&[100, 1, 1], 3), vec![1, 1, 1]);
    assert_eq!(normalized(&[100, 1, 1], 10), vec![8, 1, 1]);
}
