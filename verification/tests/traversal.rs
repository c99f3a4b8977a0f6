use grid_traversal::board::{new_board, SquareKind};
use grid_traversal::engine::{get_possible_moves, run_traversal};
use grid_traversal::node::Node;

fn orthogonally_adjacent(a: (i32, i32), b: (i32, i32)) -> bool {
    (a.0 - b.0).abs() + (a.1 - b.1).abs() == 1
}

#[test]
fn open_three_by_three_depth_first_route() {
    // East is tried first, then West, North, South; the stack makes the
    // search hug the top edge, back-fill the left column, and reach the
    // end from the west.
    let mut b = new_board(3, 3, (0, 0), (2, 2)).unwrap();
    let r = run_traversal(&mut b);
    assert!(r.solved);
    assert!(b.solved);
    assert_eq!(
        r.path,
        vec![
            (0, 0),
            (1, 0),
            (2, 0),
            (2, 1),
            (1, 1),
            (0, 1),
            (0, 2),
            (1, 2),
            (2, 2)
        ]
    );
    // the route past the start is stamped on the board, the start is kept
    assert_eq!(b.classify(0, 0).unwrap(), SquareKind::StartSquare);
    for c in r.path.iter().skip(1) {
        assert_eq!(b.classify(c.0, c.1).unwrap(), SquareKind::SolutionPath);
    }
}

#[test]
fn blocked_middle_row_exhausts() {
    let mut b = new_board(3, 3, (0, 0), (2, 2)).unwrap();
    for x in 0..3 {
        b.set_classification(x, 1, SquareKind::Obstacle).unwrap();
    }
    let r = run_traversal(&mut b);
    assert!(!r.solved);
    assert!(!b.solved);
    assert_eq!(r.path, Vec::<(i32, i32)>::new());
    // the reachable top row was still explored
    assert_eq!(b.classify(1, 0).unwrap(), SquareKind::PossiblePath);
    assert_eq!(b.classify(2, 0).unwrap(), SquareKind::PossiblePath);
    // the obstacles and the unreachable end are untouched
    assert_eq!(b.classify(1, 1).unwrap(), SquareKind::Obstacle);
    assert_eq!(b.classify(2, 2).unwrap(), SquareKind::EndSquare);
}

#[test]
fn enclosed_start_exhausts() {
    let mut b = new_board(3, 3, (1, 1), (2, 2)).unwrap();
    for c in [(0, 1), (2, 1), (1, 0), (1, 2)] {
        b.set_classification(c.0, c.1, SquareKind::Obstacle).unwrap();
    }
    let r = run_traversal(&mut b);
    assert!(!r.solved);
    assert_eq!(r.path, Vec::<(i32, i32)>::new());
}

#[test]
fn open_grid_route_is_simple_and_connected() {
    let mut b = new_board(4, 4, (0, 0), (3, 3)).unwrap();
    let r = run_traversal(&mut b);
    assert!(r.solved);
    assert_eq!(*r.path.first().unwrap(), (0, 0));
    assert_eq!(*r.path.last().unwrap(), (3, 3));
    for w in r.path.windows(2) {
        assert!(orthogonally_adjacent(w[0], w[1]));
    }
    for i in 0..r.path.len() {
        for j in (i + 1)..r.path.len() {
            assert_ne!(r.path[i], r.path[j]);
        }
    }
}

#[test]
fn start_cornered_against_end_still_solves() {
    // the start's only open neighbor is the end itself
    let mut b = new_board(2, 2, (0, 0), (1, 0)).unwrap();
    b.set_classification(0, 1, SquareKind::Obstacle).unwrap();
    b.set_classification(1, 1, SquareKind::Obstacle).unwrap();
    let r = run_traversal(&mut b);
    assert!(r.solved);
    assert_eq!(r.path, vec![(0, 0), (1, 0)]);
}

#[test]
fn identical_boards_identical_outcomes() {
    let build = || {
        let mut b = new_board(5, 5, (0, 2), (4, 2)).unwrap();
        b.set_classification(2, 1, SquareKind::Obstacle).unwrap();
        b.set_classification(2, 2, SquareKind::Obstacle).unwrap();
        b.set_classification(2, 3, SquareKind::Obstacle).unwrap();
        b
    };
    let mut a = build();
    let mut b = build();
    let ra = run_traversal(&mut a);
    let rb = run_traversal(&mut b);
    assert_eq!(ra, rb);
    assert_eq!(a, b);
}

#[test]
fn default_layout_solves() {
    // a larger layout with start and end in the middle row
    let mut b = new_board(10, 9, (1, 5), (8, 5)).unwrap();
    let r = run_traversal(&mut b);
    assert!(r.solved);
    assert_eq!(*r.path.first().unwrap(), (1, 5));
    assert_eq!(*r.path.last().unwrap(), (8, 5));
    for w in r.path.windows(2) {
        assert!(orthogonally_adjacent(w[0], w[1]));
    }
}

#[test]
fn move_generation_order_and_filter() {
    let mut b = new_board(3, 3, (1, 1), (2, 2)).unwrap();
    let root = Node::new(1, 1);
    let moves = get_possible_moves(&b, &root);
    let coords: Vec<(i32, i32)> = moves.iter().map(|m| (m.x, m.y)).collect();
    // East, West, North, South
    assert_eq!(coords, vec![(2, 1), (0, 1), (1, 0), (1, 2)]);
    // obstacles and the start square are filtered out
    b.set_classification(1, 0, SquareKind::Obstacle).unwrap();
    let at_corner = Node::new(0, 0);
    let from_corner = get_possible_moves(&b, &at_corner);
    let corner_coords: Vec<(i32, i32)> = from_corner.iter().map(|m| (m.x, m.y)).collect();
    assert_eq!(corner_coords, vec![(0, 1)]);
}

#[test]
fn reverse_path_walks_back_to_root() {
    let root = Node::new(0, 0);
    let mut a = Node::new(1, 0);
    root.add(&mut a);
    let mut c = Node::new(1, 1);
    a.add(&mut c);
    assert_eq!(c.find_reverse_path(), vec![(1, 1), (1, 0)]);
    assert_eq!(root.find_reverse_path(), Vec::<(i32, i32)>::new());
}
