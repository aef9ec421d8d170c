use unei::editing::commands::{SplitDir, WinDir};
use unei::editor::layout::{neighbor, Rect};
use unei::editor::windows::{Node, WinId, WinState};

fn area() -> Rect {
    Rect::new(0, 0, 80, 22)
}

fn rects(node: &Node) -> Vec<(WinId, Rect)> {
    let mut out = Vec::new();
    node.layout(area(), &mut out);
    out
}

fn vsplit() -> Node {
    let mut node = Node::leaf(1, None);
    node.split(1, SplitDir::Vertical, Node::leaf(2, Some(WinState::default())));
    node
}

#[test]
fn single_leaf_fills_area() {
    let node = Node::leaf(1, None);
    assert_eq!(rects(&node), vec![(1, area())]);
}

#[test]
fn vsplit_shares_width_with_separator() {
    let node = vsplit();
    let r = rects(&node);
    assert_eq!(r.len(), 2);
    let (w1, w2) = (r[0].1.width, r[1].1.width);
    assert_eq!(w1 + w2 + 1, 80);
    assert_eq!(r[1].1.x, r[0].1.width + 1);
}

#[test]
fn hsplit_shares_height_exactly() {
    let mut node = Node::leaf(1, None);
    node.split(1, SplitDir::Horizontal, Node::leaf(2, Some(WinState::default())));
    let r = rects(&node);
    assert_eq!(r[0].1.height + r[1].1.height, 22);
}

#[test]
fn neighbor_picks_overlapping_window() {
    let rects = vec![
        (1, Rect::new(0, 0, 40, 11)),
        (2, Rect::new(41, 0, 39, 11)),
        (3, Rect::new(0, 11, 80, 11)),
    ];
    assert_eq!(neighbor(&rects, 3, WinDir::Up, 60), Some(2));
    assert_eq!(neighbor(&rects, 3, WinDir::Up, 10), Some(1));
    assert_eq!(neighbor(&rects, 1, WinDir::Right, 5), Some(2));
    assert_eq!(neighbor(&rects, 2, WinDir::Left, 5), Some(1));
    assert_eq!(neighbor(&rects, 1, WinDir::Down, 20), Some(3));
    assert_eq!(neighbor(&rects, 1, WinDir::Up, 5), None);
}

#[test]
fn neighbor_of_unknown_window_is_none() {
    let rects = vec![(1, Rect::new(0, 0, 40, 11))];
    assert_eq!(neighbor(&rects, 9, WinDir::Up, 0), None);
}

#[test]
fn vsplit_places_windows_and_separator() {
    let node = vsplit();
    assert_eq!(
        rects(&node),
        vec![(1, Rect::new(0, 0, 40, 22)), (2, Rect::new(41, 0, 39, 22))]
    );
    let mut seps = Vec::new();
    node.separators(area(), &mut seps);
    assert_eq!(seps, vec![Rect::new(40, 0, 1, 22)]);
}

#[test]
fn resize_pushes_the_border() {
    let mut node = vsplit();
    assert!(node.resize(1, WinDir::Right, 5, area()));
    assert_eq!(
        rects(&node),
        vec![(1, Rect::new(0, 0, 45, 22)), (2, Rect::new(46, 0, 34, 22))]
    );
    // the last window pulls the border before it
    let mut node = vsplit();
    assert!(node.resize(2, WinDir::Right, 5, area()));
    assert_eq!(rects(&node)[0].1.width, 45);
}

#[test]
fn resize_stops_at_the_minimum_and_off_axis() {
    let mut node = vsplit();
    assert!(node.resize(1, WinDir::Left, 100, area()));
    assert_eq!(rects(&node)[0].1.width, 12);
    assert!(!node.resize(1, WinDir::Left, 1, area()));
    assert!(!node.resize(1, WinDir::Up, 1, area()));
    let mut node = Node::leaf(1, None);
    node.split(1, SplitDir::Horizontal, Node::leaf(2, Some(WinState::default())));
    assert!(node.resize(2, WinDir::Up, 20, area()));
    assert_eq!(rects(&node)[0].1.height, 2);
    assert_eq!(rects(&node)[1].1.height, 20);
}
