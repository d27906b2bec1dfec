use picross::app::App;
use picross::picross::PicrossGame;
use picross::render::GameState;

#[test]
fn test_app_shell() {
    let mut app = App::new();
    // Solving before selecting a puzzle fails.
    assert!(app.solve().is_err());

    assert!(app.change_version("v1").is_ok());
    assert!(app.change_version("bogus").is_err());
    assert!(app.change_version("v2").is_ok());

    let game = PicrossGame::from_rules("1 1,1,1 1", "1 1,1,1 1").unwrap();
    app.set_game(game);
    let frame = app.solve().unwrap();
    assert_eq!(frame.game_state, GameState::Complete);
    assert_eq!(frame.render().lines().next(), Some("Complete"));
}
