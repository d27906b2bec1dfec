use vstd::prelude::*;
use vstd::string::*;

use crate::error::PicrossError;
use crate::picross::{is_solution, prop_determines, PicrossGame};
use crate::picross::picross_solver_trait::PicrossSolver;
use crate::picross::picross_solver_v1::PicrossSolverV1;
use crate::picross::picross_solver_v2::PicrossSolverV2;
use crate::picross::picross_solver_v3::PicrossSolverV3;
use crate::render::{GameState, PicrossFrame};
use crate::text::str_eq;

verus! {

/// The selectable solving strategies.
pub enum SolverVersion {
    One(PicrossSolverV1),
    Two(PicrossSolverV2),
    Three(PicrossSolverV3),
}

impl SolverVersion {
    /// The puzzle the selected solver works on.
    pub open spec fn game_of(&self) -> PicrossGame {
        match self {
            SolverVersion::One(s) => s.0,
            SolverVersion::Two(s) => s.0,
            SolverVersion::Three(s) => s.0,
        }
    }

    /// Solve with the selected strategy: whichever it is, a Complete frame
    /// holds a genuine solution of the solver's puzzle, and a reported
    /// contradiction means the puzzle has none.
    pub fn solve(&self) -> (r: Result<PicrossFrame, PicrossError>)
        ensures
            r matches Ok(f) ==> f.game_state == GameState::Complete && f.game.rows@
                == self.game_of().rows@ && f.game.columns@ == self.game_of().columns@
                && is_solution(self.game_of().rows@, self.game_of().columns@, f.board@),
            r matches Err(e) ==> if self is One {
                e == PicrossError::NoSolution
            } else {
                e == PicrossError::Contradiction || e == PicrossError::Incomplete
            },
            (r matches Err(e) && e == PicrossError::Contradiction) || (r is Err && self is One
                && self.game_of().wf()) ==> forall|b: Seq<Seq<crate::game_board::TileState>>|
                !(#[trigger] is_solution(self.game_of().rows@, self.game_of().columns@, b)),
            // Success is owed: the search succeeds on every solvable
            // well-formed puzzle, the propagation strategies on every
            // well-formed puzzle that line propagation fully determines.
            self is One && self.game_of().wf() && (exists|b: Seq<Seq<crate::game_board::TileState>>|
                #[trigger] is_solution(self.game_of().rows@, self.game_of().columns@, b)) ==> r
                is Ok,
            !(self is One) && self.game_of().wf() && prop_determines(
                self.game_of().rows@,
                self.game_of().columns@,
            ) ==> r is Ok,
    {
        match self {
            SolverVersion::One(solver) => {
                let r = solver.solve();
                proof {
                    assert(self.game_of() == solver.0);
                    if r is Err && self.game_of().wf() {
                        assert forall|b: Seq<Seq<crate::game_board::TileState>>|
                            !(#[trigger] is_solution(
                                self.game_of().rows@,
                                self.game_of().columns@,
                                b,
                            )) by {
                            assert(!is_solution(solver.0.rows@, solver.0.columns@, b));
                        }
                    }
                }
                r
            },
            SolverVersion::Two(solver) => {
                let r = solver.solve();
                proof {
                    assert(self.game_of() == solver.0);
                    if r matches Err(e) && e == PicrossError::Contradiction {
                        assert forall|b: Seq<Seq<crate::game_board::TileState>>|
                            !(#[trigger] is_solution(
                                self.game_of().rows@,
                                self.game_of().columns@,
                                b,
                            )) by {
                            assert(!is_solution(solver.0.rows@, solver.0.columns@, b));
                        }
                    }
                }
                r
            },
            SolverVersion::Three(solver) => {
                let r = solver.solve();
                proof {
                    assert(self.game_of() == solver.0);
                    if r matches Err(e) && e == PicrossError::Contradiction {
                        assert forall|b: Seq<Seq<crate::game_board::TileState>>|
                            !(#[trigger] is_solution(
                                self.game_of().rows@,
                                self.game_of().columns@,
                                b,
                            )) by {
                            assert(!is_solution(solver.0.rows@, solver.0.columns@, b));
                        }
                    }
                }
                r
            },
        }
    }

    /// Exchange the puzzle, keeping the selected strategy.
    pub fn set_game(&mut self, game: PicrossGame)
        ensures
            final(self).game_of().rows@ == game.rows@,
            final(self).game_of().columns@ == game.columns@,
            (*final(self)) is One == (*old(self)) is One,
            (*final(self)) is Two == (*old(self)) is Two,
            (*final(self)) is Three == (*old(self)) is Three,
    {
        match self {
            SolverVersion::One(_) => {
                *self = SolverVersion::One(PicrossSolverV1(game));
            },
            SolverVersion::Two(_) => {
                *self = SolverVersion::Two(PicrossSolverV2(game));
            },
            SolverVersion::Three(_) => {
                *self = SolverVersion::Three(PicrossSolverV3(game));
            },
        }
    }
}

/// The solving shell: a selected strategy and, once one was chosen, the
/// puzzle to solve.
pub struct App {
    pub version: SolverVersion,
    pub game: Option<PicrossGame>,
}

impl App {
    /// The puzzle selected so far, if any.
    pub open spec fn game_of(&self) -> Option<PicrossGame> {
        self.game
    }

    /// A fresh shell: worklist propagation on a trivial puzzle, and no
    /// puzzle selected yet.
    pub fn new() -> (r: Self)
        ensures
            r.game_of() is None,
            r.version is Three,
    {
        let default_game = PicrossGame::default();
        App { version: SolverVersion::Three(PicrossSolverV3::from_game(default_game)), game: None }
    }

    /// Select the puzzle to solve.
    pub fn set_game(&mut self, game: PicrossGame)
        ensures
            final(self).game_of() matches Some(g) && g.rows@ == game.rows@ && g.columns@
                == game.columns@,
            final(self).version == old(self).version,
    {
        self.game = Some(game);
    }

    /// Select the solving strategy by name: `v1`, `v2` or `v3`.
    pub fn change_version(&mut self, version: &str) -> (r: Result<(), String>)
        ensures
            version@ == "v1"@ ==> r is Ok && final(self).version is One,
            version@ == "v2"@ ==> r is Ok && final(self).version is Two,
            version@ == "v3"@ ==> r is Ok && final(self).version is Three,
            r is Err <==> version@ != "v1"@ && version@ != "v2"@ && version@ != "v3"@,
            r is Err ==> final(self).version == old(self).version,
            // A fresh variant starts on the trivial one-by-one puzzle.
            r is Ok ==> final(self).version.game_of().rows@ == seq![seq![0usize]]
                && final(self).version.game_of().columns@ == seq![seq![0usize]],
            r matches Err(m) ==> m@
                == "invalid version selection\n Available versions are: v1, v2, v3"@,
            final(self).game_of() == old(self).game_of(),
    {
        proof {
            reveal_strlit("v1");
            reveal_strlit("v2");
            reveal_strlit("v3");
            assert("v1"@[1] == '1' && "v2"@[1] == '2' && "v3"@[1] == '3');
            assert("v1"@ != "v2"@ && "v1"@ != "v3"@ && "v2"@ != "v3"@);
        }
        if str_eq(version, "v1") {
            self.version = SolverVersion::One(PicrossSolverV1(PicrossGame::default()));
            Ok(())
        } else if str_eq(version, "v2") {
            self.version = SolverVersion::Two(PicrossSolverV2(PicrossGame::default()));
            Ok(())
        } else if str_eq(version, "v3") {
            self.version = SolverVersion::Three(PicrossSolverV3(PicrossGame::default()));
            Ok(())
        } else {
            Err(String::from_str("invalid version selection\n Available versions are: v1, v2, v3"))
        }
    }

    /// Solve the selected puzzle with the selected strategy. Fails when no
    /// puzzle was selected, and reports the solver's own failure otherwise.
    pub fn solve(&mut self) -> (r: Result<PicrossFrame, String>)
        ensures
            old(self).game_of() is None ==> r is Err,
            r matches Ok(f) ==> old(self).game_of() matches Some(g) && f.game_state
                == GameState::Complete && f.game.rows@ == g.rows@ && f.game.columns@ == g.columns@
                && is_solution(g.rows@, g.columns@, f.board@),
            // Success is owed once a puzzle is selected: always for the
            // search on a solvable well-formed puzzle, and for the
            // propagation strategies whenever line propagation alone fully
            // determines it.
            (old(self).game_of() matches Some(g) && old(self).version is One && g.wf() && (exists|
                b: Seq<Seq<crate::game_board::TileState>>,
            |
                #[trigger] is_solution(g.rows@, g.columns@, b))) ==> r is Ok,
            (old(self).game_of() matches Some(g) && !(old(self).version is One) && g.wf()
                && prop_determines(g.rows@, g.columns@)) ==> r is Ok,
    {
        let game = match &self.game {
            Some(g) => g.duplicate(),
            None => {
                return Err(String::from_str("Picross Game not set prior to solving"));
            },
        };
        self.version.set_game(game);
        match self.version.solve() {
            Ok(frame) => Ok(frame),
            Err(e) => Err(String::from_str(e.describe())),
        }
    }
}

} // verus!
