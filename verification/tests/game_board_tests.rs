use picross::game_board::GameBoard;
use picross::game_board::GameBoardRow;
use picross::game_board::Segment;
use picross::game_board::TileState::Empty;
use picross::game_board::TileState::Filled;

#[test]
fn test_render_game_board() {
    let board = GameBoard::new(3, 3);
    let board_string = board.render();
    let expected = "???\n???\n???";
    assert_eq!(board_string, expected);
}

#[test]
fn test_set_tiles() {
    let mut board = GameBoard::new(3, 3);
    let _ = board.set_tile(0, 0, Filled);
    let _ = board.set_tile(1, 0, Empty);
    let _ = board.set_tile(2, 0, Filled);

    let _ = board.set_tile(0, 1, Empty);
    let _ = board.set_tile(1, 1, Filled);
    let _ = board.set_tile(2, 1, Empty);

    let _ = board.set_tile(0, 2, Filled);
    let _ = board.set_tile(1, 2, Empty);
    let _ = board.set_tile(2, 2, Filled);

    assert_eq!(board.render(), "x x\n x \nx x");
}

#[test]
fn test_build_row_from_empty_segments() {
    let segments: Vec<Segment> = vec![];
    let row = GameBoardRow::build_from_segments(segments, 5).unwrap();
    assert_eq!(row, GameBoardRow(vec![Empty, Empty, Empty, Empty, Empty]))
}

#[test]
fn test_build_row_from_segments() {
    let segments: Vec<Segment> = vec![
        Segment { index: 0, length: 3 },
        Segment { index: 4, length: 1 },
    ];
    let row = GameBoardRow::build_from_segments(segments, 5).unwrap();
    assert_eq!(row, GameBoardRow(vec![Filled, Filled, Filled, Empty, Filled]));
}

#[test]
fn test_get_board_column_chunks() {
    let board = GameBoard(vec![
        GameBoardRow(vec![Filled, Empty, Empty]),
        GameBoardRow(vec![Empty, Empty, Filled]),
        GameBoardRow(vec![Filled, Filled, Filled]),
    ]);
    assert_eq!(board.get_column_chunks(0).unwrap(), vec![1, 1]);
    assert_eq!(board.get_column_chunks(1).unwrap(), vec![1]);
    assert_eq!(board.get_column_chunks(2).unwrap(), vec![2]);
}
