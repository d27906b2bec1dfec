use picross::error::PicrossError;
use picross::game_board::GameBoard;
use picross::game_board::GameBoardRow;
use picross::game_board::TileState::Empty;
use picross::game_board::TileState::Filled;
use picross::game_board::TileState::Undetermined;
use picross::iterators::PicrossLineIter;
use picross::picross::picross_solver_trait::PicrossSolver;
use picross::picross::picross_solver_v1::PicrossSolverV1;
use picross::picross::picross_solver_v2::PicrossSolverV2;
use picross::picross::picross_solver_v3::PicrossSolverV3;
use picross::picross::PicrossGame;
use picross::render::GameState;

fn count_lines(rule: Vec<usize>, width: usize) -> usize {
    let mut it = PicrossLineIter::new(rule, width);
    let mut n = 0;
    while it.next().is_some() {
        n += 1;
    }
    n
}

/// The generator yields binomial(w - sum + 1, k) lines when the runs fit,
/// none when they do not, and exactly one for the degenerate rule `[0]`.
#[test]
fn test_generator_counts() {
    // C(5 - 3 + 1, 2) = C(3, 2) = 3
    assert_eq!(count_lines(vec![2, 1], 5), 3);
    // C(5 - 2 + 1, 2) = C(4, 2) = 6
    assert_eq!(count_lines(vec![1, 1], 5), 6);
    // C(3 - 1 + 1, 1) = 3
    assert_eq!(count_lines(vec![1], 3), 3);
    // does not fit: zero placements
    assert_eq!(count_lines(vec![3, 3], 5), 0);
    // degenerate rule: exactly one all-empty line
    assert_eq!(count_lines(vec![0], 7), 1);
}

/// Merging is commutative, associative, and idempotent on non-conflicting
/// boards.
#[test]
fn test_merge_laws() {
    let a = GameBoard(vec![
        GameBoardRow(vec![Filled, Undetermined, Undetermined]),
        GameBoardRow(vec![Undetermined, Empty, Undetermined]),
    ]);
    let b = GameBoard(vec![
        GameBoardRow(vec![Filled, Empty, Undetermined]),
        GameBoardRow(vec![Undetermined, Undetermined, Filled]),
    ]);
    let c = GameBoard(vec![
        GameBoardRow(vec![Undetermined, Undetermined, Filled]),
        GameBoardRow(vec![Empty, Undetermined, Filled]),
    ]);

    let ab = a.merge_board(b.duplicate()).unwrap();
    let ba = b.merge_board(a.duplicate()).unwrap();
    assert_eq!(ab, ba);

    let ab_c = ab.merge_board(c.duplicate()).unwrap();
    let bc = b.merge_board(c.duplicate()).unwrap();
    let a_bc = a.merge_board(bc).unwrap();
    assert_eq!(ab_c, a_bc);

    let aa = a.merge_board(a.duplicate()).unwrap();
    assert_eq!(aa, a);
}

/// Merging a Filled cell against an Empty one is a contradiction.
#[test]
fn test_merge_contradiction() {
    let a = GameBoard(vec![GameBoardRow(vec![Filled, Empty])]);
    let b = GameBoard(vec![GameBoardRow(vec![Empty, Empty])]);
    assert_eq!(a.merge_board(b), Err(PicrossError::Contradiction));
}

/// Round trip: parsing a serialized puzzle gives the puzzle back.
#[test]
fn test_rules_file_round_trip() {
    let game = PicrossGame::from_rules("2 1,3,1 1 1", "1 2,2,1,1 1,1").unwrap();
    let serialized = game.to_rules_file_string();
    let reparsed = PicrossGame::from_rules_file_string(&serialized).unwrap();
    assert_eq!(reparsed, game);
    assert_eq!(reparsed.to_rules_file_string(), serialized);
}

/// Mismatched filled-cell totals fail at construction, before any solver.
#[test]
fn test_mismatched_sums_rejected() {
    assert_eq!(
        PicrossGame::from_rules("1", "2").err(),
        Some(PicrossError::DimensionMismatch)
    );
    assert_eq!(
        PicrossGame::from_rules("1", "1 1").err(),
        Some(PicrossError::DimensionMismatch)
    );
}

/// Malformed rule strings fail with a parse error.
#[test]
fn test_parse_errors() {
    assert_eq!(
        PicrossGame::from_rules("a", "1").err(),
        Some(PicrossError::ParseError)
    );
    assert_eq!(
        PicrossGame::from_rules("", "1").err(),
        Some(PicrossError::ParseError)
    );
    // A zero run inside a longer run list is meaningless.
    assert_eq!(
        PicrossGame::from_rules("1 0", "1").err(),
        Some(PicrossError::ParseError)
    );
    assert!(PicrossGame::from_rules_file_string("1\n1").is_err());
}

/// A puzzle whose unique solution needs case-split reasoning: line
/// propagation stalls while the backtracking search still finds it.
#[test]
fn test_case_split_puzzle() {
    let rows = "1,1,1,1";
    let columns = "1 1,2,0";
    let expected = GameBoard(vec![
        GameBoardRow(vec![Filled, Empty, Empty]),
        GameBoardRow(vec![Empty, Filled, Empty]),
        GameBoardRow(vec![Empty, Filled, Empty]),
        GameBoardRow(vec![Filled, Empty, Empty]),
    ]);

    let search = PicrossSolverV1(PicrossGame::from_rules(rows, columns).unwrap());
    let frame = search.solve().unwrap();
    assert_eq!(frame.game_state, GameState::Complete);
    assert_eq!(frame.board, expected);

    let fixed_point = PicrossSolverV2(PicrossGame::from_rules(rows, columns).unwrap());
    assert_eq!(fixed_point.solve().err(), Some(PicrossError::Incomplete));

    let worklist = PicrossSolverV3(PicrossGame::from_rules(rows, columns).unwrap());
    assert_eq!(worklist.solve().err(), Some(PicrossError::Incomplete));
}

/// An unsolvable puzzle: the search reports no solution, propagation a
/// contradiction.
#[test]
fn test_unsolvable_puzzle() {
    let game = PicrossGame::from_rules("1 1", "2").unwrap();
    let search = PicrossSolverV1(game);
    assert_eq!(search.solve().err(), Some(PicrossError::NoSolution));

    let game = PicrossGame::from_rules("1 1", "2").unwrap();
    let fixed_point = PicrossSolverV2(game);
    assert_eq!(fixed_point.solve().err(), Some(PicrossError::Contradiction));
}

/// A partial solve against a reference that rules every placement out is a
/// contradiction.
#[test]
fn test_partial_solve_contradiction() {
    let mut it = PicrossLineIter::new(vec![1], 2);
    let reference = GameBoardRow(vec![Empty, Empty]);
    assert_eq!(
        it.get_partially_solved_line(Some(&reference)),
        Err(PicrossError::Contradiction)
    );
}

/// Out-of-range coordinates and undetermined lines are reported as such.
#[test]
fn test_board_errors() {
    let mut board = GameBoard::new(2, 2);
    assert_eq!(board.set_tile(2, 0, Filled), Err(PicrossError::OutOfBounds));
    assert_eq!(board.set_tile(0, 2, Filled), Err(PicrossError::OutOfBounds));
    assert_eq!(
        board.get_column_chunks(0),
        Err(PicrossError::UndeterminedLine)
    );
    assert_eq!(board.get_column_chunks(5), Err(PicrossError::OutOfBounds));
}

/// The solvers agree on solvable puzzles, and frames refuse boards whose
/// dimensions do not fit the puzzle.
#[test]
fn test_solvers_agree_on_solved_boards() {
    let rows = "1 1,1,1 1";
    let columns = "1 1,1,1 1";
    let a = PicrossSolverV1(PicrossGame::from_rules(rows, columns).unwrap());
    let b = PicrossSolverV2(PicrossGame::from_rules(rows, columns).unwrap());
    let c = PicrossSolverV3(PicrossGame::from_rules(rows, columns).unwrap());
    let fa = a.solve().unwrap();
    let fb = b.solve().unwrap();
    let fc = c.solve().unwrap();
    assert_eq!(fa.board, fb.board);
    assert_eq!(fb.board, fc.board);
}

#[test]
fn test_frame_dimension_mismatch() {
    let game = PicrossGame::from_rules("1", "1").unwrap();
    let board = GameBoard::new(2, 2);
    assert!(matches!(
        picross::render::PicrossFrame::new(game, board, GameState::InProgress),
        Err(PicrossError::DimensionMismatch)
    ));
}
