use picross::game_board::GameBoard;
use picross::game_board::GameBoardRow;
use picross::game_board::TileState::Empty;
use picross::game_board::TileState::Filled;
use picross::picross::AxisRules;
use picross::picross::PicrossGame;
use picross::render::render_column_axis_rules;
use picross::render::GameState;
use picross::render::PicrossFrame;

#[test]
fn test_render_column_axis_rules() {
    let rules = AxisRules::from_str("1 1,1,1 1").unwrap();
    let rendered = render_column_axis_rules(&rules);
    let expected = "1   1 \n1 1 1 ";
    assert_eq!(rendered, expected.to_string());
}

#[test]
fn test_frame_produces_expected_output() {
    let board = GameBoard(vec![
        GameBoardRow(vec![Filled, Empty, Filled]),
        GameBoardRow(vec![Empty, Filled, Empty]),
        GameBoardRow(vec![Filled, Empty, Filled]),
    ]);
    let game = PicrossGame::from_rules("1 1,1,1 1", "1 1,1,1 1").unwrap();
    let frame = PicrossFrame::new(game, board, GameState::InProgress).unwrap();
    let expected =
        "In Progress\n\n   1   1 \n   1 1 1 \n1 1██  ██\n  1  ██  \n1 1██  ██";
    assert_eq!(frame.render(), expected.to_string())
}
