use vstd::prelude::*;

use crate::error::PicrossError;
use crate::picross::{is_solution, PicrossGame};
use crate::render::{GameState, PicrossFrame};

verus! {

/// A solving strategy for picross puzzles. Whatever the strategy, a frame
/// it reports as Complete holds a genuine solution of its puzzle: a fully
/// determined board whose every row and column satisfies its rule.
pub trait PicrossSolver: Sized {
    /// The puzzle this solver instance works on.
    spec fn game_of(&self) -> PicrossGame;

    /// Solve the puzzle, or report why it could not be solved.
    fn solve(&self) -> (r: Result<PicrossFrame, PicrossError>)
        ensures
            r matches Ok(f) ==> f.game_state == GameState::Complete && f.game_of().rows@
                == self.game_of().rows@ && f.game_of().columns@ == self.game_of().columns@
                && is_solution(self.game_of().rows@, self.game_of().columns@, f.board@),
    ;

    /// A solver for the given puzzle.
    fn from_game(game: PicrossGame) -> (s: Self)
        ensures
            s.game_of().rows@ == game.rows@,
            s.game_of().columns@ == game.columns@,
    ;

    /// Exchange the puzzle this solver works on.
    fn set_game(&mut self, game: PicrossGame)
        ensures
            final(self).game_of().rows@ == game.rows@,
            final(self).game_of().columns@ == game.columns@,
    ;
}

} // verus!
