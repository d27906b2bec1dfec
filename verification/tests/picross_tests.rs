use picross::game_board::GameBoard;
use picross::game_board::GameBoardRow;
use picross::game_board::TileState::Empty;
use picross::game_board::TileState::Filled;
use picross::picross::picross_solver_trait::PicrossSolver;
use picross::picross::picross_solver_v1::PicrossSolverV1;
use picross::picross::picross_solver_v2::PicrossSolverV2;
use picross::picross::picross_solver_v3::PicrossSolverV3;
use picross::picross::validate_chunks;
use picross::picross::AxisRules;
use picross::picross::ChunksValidation;
use picross::picross::LineRule;
use picross::picross::PicrossGame;
use picross::render::GameState;

fn run_solver_tests<T: PicrossSolver>(instance: &mut T) {
    let basic_game = PicrossGame::from_rules("1", "0,0,1").unwrap();
    let basic_expected = GameBoard(vec![GameBoardRow(vec![Empty, Empty, Filled])]);
    instance.set_game(basic_game);
    let solved_frame = instance.solve().unwrap();
    assert_eq!(solved_frame.game_state, GameState::Complete);

    let solved_board = solved_frame.board;
    assert_eq!(solved_board, basic_expected);

    let medium_game = PicrossGame::from_rules("1 1,1,1 1", "1 1,1,1 1").unwrap();
    let medium_expected = GameBoard(vec![
        GameBoardRow(vec![Filled, Empty, Filled]),
        GameBoardRow(vec![Empty, Filled, Empty]),
        GameBoardRow(vec![Filled, Empty, Filled]),
    ]);
    instance.set_game(medium_game);

    let solved_frame = instance.solve().unwrap();
    assert_eq!(solved_frame.game_state, GameState::Complete);

    let solved_board = solved_frame.board;
    assert_eq!(solved_board, medium_expected);

    let complex_game = PicrossGame::from_rules("1 1,1 1,5,1 1 1,5", "3,3 1,3,3 1,3").unwrap();
    let complex_expected = GameBoard(vec![
        GameBoardRow(vec![Empty, Filled, Empty, Filled, Empty]),
        GameBoardRow(vec![Empty, Filled, Empty, Filled, Empty]),
        GameBoardRow(vec![Filled, Filled, Filled, Filled, Filled]),
        GameBoardRow(vec![Filled, Empty, Filled, Empty, Filled]),
        GameBoardRow(vec![Filled, Filled, Filled, Filled, Filled]),
    ]);

    instance.set_game(complex_game);
    let solved_frame = instance.solve().unwrap();
    assert_eq!(solved_frame.game_state, GameState::Complete);

    let solved_board = solved_frame.board;
    assert_eq!(solved_board, complex_expected);
}

#[test]
fn test_solver_v1() {
    let mut solver = PicrossSolverV1(PicrossGame::from_rules("0", "0").unwrap());
    run_solver_tests(&mut solver);
}

#[test]
fn test_solver_v2() {
    let mut solver = PicrossSolverV2(PicrossGame::from_rules("0", "0").unwrap());
    run_solver_tests(&mut solver);
}

#[test]
fn test_solver_v3() {
    let mut solver = PicrossSolverV3(PicrossGame::from_rules("0", "0").unwrap());
    run_solver_tests(&mut solver);
}

#[test]
fn test_to_rules_string() {
    let game = PicrossGame::from_rules("1 1,1,1 1", "1 1,1,1 1").unwrap();
    let output = game.to_rules_file_string();
    let expected = "\
1 1
1
1 1
-----
1 1
1
1 1";
    assert_eq!(output, expected);
}

#[test]
fn test_from_and_to_rules_string() {
    let input = "\
1 1
1
1 1
-----
1 1
1
1 1";
    let game = PicrossGame::from_rules_file_string(input).unwrap();
    let output = game.to_rules_file_string();
    assert_eq!(input, output);
}

#[test]
fn test_row_column_rules_from_string() {
    let res = AxisRules::from_str("1,0,1 2");
    let expected = AxisRules(vec![
        LineRule(vec![1]),
        LineRule(vec![0]),
        LineRule(vec![1, 2]),
    ]);
    assert!(res.is_ok());
    assert_eq!(res.unwrap(), expected);
}

#[test]
fn test_validate_chunks() {
    let rule = LineRule(vec![3]);
    assert_eq!(validate_chunks(&rule, vec![0]), ChunksValidation::InProgress);

    let rule = LineRule(vec![0]);
    assert_eq!(validate_chunks(&rule, vec![0]), ChunksValidation::Valid);

    let rule = LineRule(vec![1, 2]);
    assert_eq!(validate_chunks(&rule, vec![1, 2]), ChunksValidation::Valid);

    let rule = LineRule(vec![1, 2]);
    assert_eq!(validate_chunks(&rule, vec![2, 2]), ChunksValidation::Invalid);

    let rule = LineRule(vec![1, 2, 3]);
    assert_eq!(
        validate_chunks(&rule, vec![1, 2, 2]),
        ChunksValidation::InProgress
    );
}

#[test]
fn test_line_rule_from_render_text() {
    let line = "XX   XXXX   XX";
    let rule = LineRule::from_render_line(line);
    let expected = LineRule(vec![2, 4, 2]);
    assert_eq!(rule, expected);
}

#[test]
fn test_from_text_render() {
    let input = "x x\n x \n   \nxxx\nxxx".trim();
    let game = PicrossGame::from_text_render(input).unwrap();
    let expected = PicrossGame {
        rows: AxisRules::from_str("1 1,1,0,3,3").unwrap(),
        columns: AxisRules::from_str("1 2,1 2,1 2").unwrap(),
    };
    assert_eq!(game, expected);
}
