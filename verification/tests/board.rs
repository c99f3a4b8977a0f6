use grid_traversal::board::{new_board, BoardError, SquareKind};

#[test]
fn fresh_board_cells() {
    let b = new_board(3, 3, (0, 0), (2, 2)).unwrap();
    assert_eq!(b.width, 3);
    assert_eq!(b.height, 3);
    assert_eq!(b.classify(0, 0).unwrap(), SquareKind::StartSquare);
    assert_eq!(b.classify(2, 2).unwrap(), SquareKind::EndSquare);
    for y in 0..3 {
        for x in 0..3 {
            if (x, y) != (0, 0) && (x, y) != (2, 2) {
                assert_eq!(b.classify(x, y).unwrap(), SquareKind::Init);
            }
        }
    }
    assert!(!b.solved);
}

#[test]
fn classify_out_of_bounds() {
    let b = new_board(3, 3, (0, 0), (2, 2)).unwrap();
    assert_eq!(b.classify(-1, 0), Err(BoardError::OutOfBounds));
    assert_eq!(b.classify(0, -1), Err(BoardError::OutOfBounds));
    assert_eq!(b.classify(3, 0), Err(BoardError::OutOfBounds));
    assert_eq!(b.classify(0, 3), Err(BoardError::OutOfBounds));
}

#[test]
fn set_classification_paints_and_bounds() {
    let mut b = new_board(3, 3, (0, 0), (2, 2)).unwrap();
    assert_eq!(b.set_classification(1, 1, SquareKind::Obstacle), Ok(()));
    assert_eq!(b.classify(1, 1).unwrap(), SquareKind::Obstacle);
    assert_eq!(b.classify(1, 0).unwrap(), SquareKind::Init);
    assert_eq!(
        b.set_classification(3, 1, SquareKind::Obstacle),
        Err(BoardError::OutOfBounds)
    );
    assert_eq!(
        b.set_classification(1, -1, SquareKind::Obstacle),
        Err(BoardError::OutOfBounds)
    );
}

#[test]
fn coincident_start_end_is_rejected() {
    // a 1x1 grid forces start and end onto the same cell
    assert_eq!(
        new_board(1, 1, (0, 0), (0, 0)).unwrap_err(),
        BoardError::InvalidConfiguration
    );
    assert_eq!(
        new_board(4, 4, (2, 2), (2, 2)).unwrap_err(),
        BoardError::InvalidConfiguration
    );
}

#[test]
fn bad_dimensions_and_bad_endpoints_are_rejected() {
    assert_eq!(
        new_board(0, 3, (0, 0), (2, 2)).unwrap_err(),
        BoardError::InvalidConfiguration
    );
    assert_eq!(
        new_board(3, -1, (0, 0), (2, 2)).unwrap_err(),
        BoardError::InvalidConfiguration
    );
    assert_eq!(
        new_board(3, 3, (3, 0), (2, 2)).unwrap_err(),
        BoardError::InvalidConfiguration
    );
    assert_eq!(
        new_board(3, 3, (0, 0), (2, 3)).unwrap_err(),
        BoardError::InvalidConfiguration
    );
}

#[test]
fn reset_restores_fresh_content() {
    let mut b = new_board(3, 3, (0, 0), (2, 2)).unwrap();
    b.set_classification(1, 1, SquareKind::Obstacle).unwrap();
    b.set_classification(2, 0, SquareKind::PossiblePath).unwrap();
    assert_eq!(b.reset(3, 3, (0, 0), (2, 2)), Ok(()));
    let fresh = new_board(3, 3, (0, 0), (2, 2)).unwrap();
    assert_eq!(b, fresh);
}

#[test]
fn reset_twice_same_parameters_equal_content() {
    let mut a = new_board(5, 4, (0, 0), (4, 3)).unwrap();
    a.set_classification(2, 2, SquareKind::Obstacle).unwrap();
    a.reset(4, 4, (1, 1), (3, 3)).unwrap();
    let mut b = new_board(2, 2, (0, 0), (1, 1)).unwrap();
    b.reset(4, 4, (1, 1), (3, 3)).unwrap();
    assert_eq!(a, b);
}

#[test]
fn reset_with_bad_parameters_leaves_board_unchanged() {
    let mut b = new_board(3, 3, (0, 0), (2, 2)).unwrap();
    b.set_classification(1, 1, SquareKind::Obstacle).unwrap();
    let before = b.clone();
    assert_eq!(
        b.reset(3, 3, (1, 1), (1, 1)),
        Err(BoardError::InvalidConfiguration)
    );
    assert_eq!(b, before);
}

#[test]
fn is_traversable_rules() {
    let mut b = new_board(3, 3, (0, 0), (2, 2)).unwrap();
    b.set_classification(1, 1, SquareKind::Obstacle).unwrap();
    b.set_classification(2, 0, SquareKind::PossiblePath).unwrap();
    b.set_classification(0, 2, SquareKind::SolutionPath).unwrap();
    assert!(!b.is_traversable(-1, 0));
    assert!(!b.is_traversable(0, 3));
    assert!(!b.is_traversable(0, 0)); // start square
    assert!(!b.is_traversable(1, 1)); // obstacle
    assert!(b.is_traversable(2, 2)); // end square
    assert!(b.is_traversable(1, 0)); // untouched
    assert!(b.is_traversable(2, 0)); // explored
    assert!(b.is_traversable(0, 2)); // solution marking
}
