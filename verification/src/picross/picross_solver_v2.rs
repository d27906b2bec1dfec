use vstd::prelude::*;

use crate::error::PicrossError;
use crate::game_board::{grid, GameBoard};
use crate::game_board::TileState;
use crate::picross::{
    axis_wf, board_refines, cols_pass, cols_pass_ok, is_solution, lemma_board_refines_count,
    lemma_board_refines_trans, lemma_cols_pass_refines, lemma_empty_board_refines,
    lemma_fails_excludes_fixpoints, lemma_fixpoint_no_fail, lemma_fixpoint_solution,
    lemma_fixpoint_value_unique,
    lemma_rows_pass_refines, lemma_solution_survives_step, prop_chain_fails, prop_determines,
    prop_fixpoint_at, prop_iterate, prop_stalls, prop_step, rows_pass, rows_pass_ok, transpose,
    undet_count, PicrossGame,
};
use crate::picross::picross_solver_trait::PicrossSolver;
use crate::render::{GameState, PicrossFrame};

verus! {

/// Fixed-point line propagation: alternately intersect every row's and
/// every column's placements against the current board until it stops
/// changing. Complete and incomplete puzzles are told apart at the fixed
/// point; this strategy never backtracks, so a puzzle whose solution needs
/// case analysis ends in `Incomplete`.
pub struct PicrossSolverV2(pub PicrossGame);

impl PicrossSolverV2 {
    /// One full propagation pass: a row pass followed by a column pass.
    fn step(game: &PicrossGame, current: &GameBoard) -> (r: Result<GameBoard, PicrossError>)
        requires
            current@.len() == game.rows@.len(),
            grid(current@, game.columns@.len() as int),
        ensures
            ({
                let w = game.columns@.len() as int;
                let h = game.rows@.len() as int;
                match r {
                    Ok(out) => rows_pass_ok(game.rows@, w, current@) && cols_pass_ok(
                        game.columns@,
                        h,
                        rows_pass(game.rows@, w, current@),
                    ) && out@ == transpose(
                        cols_pass(game.columns@, h, rows_pass(game.rows@, w, current@)),
                        h,
                    ) && out@.len() == h && grid(out@, w),
                    Err(e) => e == PicrossError::Contradiction && !(rows_pass_ok(
                        game.rows@,
                        w,
                        current@,
                    ) && cols_pass_ok(game.columns@, h, rows_pass(game.rows@, w, current@))),
                }
            }),
    {
        let ghost w = game.columns@.len() as int;
        let ghost h = game.rows@.len() as int;
        let mid = match game.get_partial_board_from_rows(Some(current.duplicate())) {
            Ok(b) => b,
            Err(_) => {
                return Err(PicrossError::Contradiction);
            },
        };
        proof {
            assert(mid@ == rows_pass(game.rows@, w, current@));
            assert(mid@.len() == h);
            assert forall|y: int| 0 <= y < mid@.len() implies (#[trigger] mid@[y]).len() == w by {
                assert(mid@[y] == crate::picross::partial_line_spec(
                    game.rows@[y],
                    w,
                    current@[y],
                ).unwrap());
            }
        }
        let out = match game.get_partial_board_from_columns(Some(mid)) {
            Ok(b) => b,
            Err(_) => {
                return Err(PicrossError::Contradiction);
            },
        };
        proof {
            let cp = cols_pass(game.columns@, h, rows_pass(game.rows@, w, current@));
            assert(out@ == transpose(cp, h));
            assert(out@.len() == h);
            assert forall|y: int| 0 <= y < out@.len() implies (#[trigger] out@[y]).len() == w by {
                assert(out@[y] == crate::game_board::col_of(cp, y));
            }
        }
        Ok(out)
    }
}

impl PicrossSolver for PicrossSolverV2 {
    open spec fn game_of(&self) -> PicrossGame {
        self.0
    }

    fn solve(&self) -> (r: Result<PicrossFrame, PicrossError>)
        ensures
            r matches Err(e) ==> e == PicrossError::Contradiction || e == PicrossError::Incomplete,
            // A contradiction is definitive: the puzzle has no solution.
            r matches Err(e) && e == PicrossError::Contradiction ==> forall|
                b: Seq<Seq<TileState>>,
            |
                !(#[trigger] is_solution(self.0.rows@, self.0.columns@, b)),
            // The outcome is exactly the propagation chain's: a contradiction
            // iff some pass fails along the way; on a well-formed puzzle,
            // success iff the chain's fixed point is fully determined, the
            // stall outcome iff it is not.
            (r matches Err(e) && e == PicrossError::Contradiction) <==> prop_chain_fails(
                self.0.rows@,
                self.0.columns@,
            ),
            self.0.wf() ==> (r is Ok <==> prop_determines(self.0.rows@, self.0.columns@)),
            self.0.wf() ==> ((r matches Err(e) && e == PicrossError::Incomplete) <==> prop_stalls(
                self.0.rows@,
                self.0.columns@,
            )),
            r matches Ok(f) ==> forall|n: nat|
                #[trigger] prop_fixpoint_at(self.0.rows@, self.0.columns@, n) ==> prop_iterate(
                    self.0.rows@,
                    self.0.columns@,
                    n,
                ) == Some(f.board@),
    {
        let game = &self.0;
        let ghost w = game.columns@.len() as int;
        let ghost h = game.rows@.len() as int;
        let initial = GameBoard::new(game.width(), game.height());
        let mut current = match Self::step(game, &initial) {
            Ok(b) => b,
            Err(_) => {
                proof {
                    assert forall|s: Seq<Seq<TileState>>|
                        !(#[trigger] is_solution(game.rows@, game.columns@, s)) by {
                        if is_solution(game.rows@, game.columns@, s) {
                            lemma_empty_board_refines(s, w, h);
                            lemma_solution_survives_step(game.rows@, game.columns@, initial@, s);
                        }
                    }
                    assert(prop_iterate(game.rows@, game.columns@, 0) == Some(initial@));
                    assert(prop_step(game.rows@, game.columns@, initial@) is None);
                    assert(prop_iterate(game.rows@, game.columns@, 1) is None);
                    assert(prop_chain_fails(game.rows@, game.columns@));
                    lemma_fails_excludes_fixpoints(game.rows@, game.columns@);
                }
                return Err(PicrossError::Contradiction);
            },
        };
        let ghost mut k: nat = 1;
        proof {
            assert forall|s: Seq<Seq<TileState>>|
                #[trigger] is_solution(game.rows@, game.columns@, s) implies board_refines(
                s,
                current@,
            ) by {
                lemma_empty_board_refines(s, w, h);
                lemma_solution_survives_step(game.rows@, game.columns@, initial@, s);
            }
            assert(prop_iterate(game.rows@, game.columns@, 0) == Some(initial@));
            assert(prop_step(game.rows@, game.columns@, initial@) == Some(current@));
            assert(prop_iterate(game.rows@, game.columns@, 1) == Some(current@));
        }
        loop
            invariant
                w == game.columns@.len(),
                h == game.rows@.len(),
                game.rows@ == self.0.rows@,
                game.columns@ == self.0.columns@,
                current@.len() == h,
                grid(current@, w),
                forall|s: Seq<Seq<TileState>>|
                    #[trigger] is_solution(game.rows@, game.columns@, s) ==> board_refines(
                        s,
                        current@,
                    ),
                prop_iterate(game.rows@, game.columns@, k) == Some(current@),
            decreases undet_count(current@),
        {
            proof {
                assert(crate::picross::board_refines(current@, current@));
                lemma_board_refines_count(current@, current@);
            }
            let next = match Self::step(game, &current) {
                Ok(b) => b,
                Err(_) => {
                    proof {
                        assert forall|s: Seq<Seq<TileState>>|
                            !(#[trigger] is_solution(game.rows@, game.columns@, s)) by {
                            if is_solution(game.rows@, game.columns@, s) {
                                lemma_solution_survives_step(
                                    game.rows@,
                                    game.columns@,
                                    current@,
                                    s,
                                );
                            }
                        }
                        assert(prop_step(game.rows@, game.columns@, current@) is None);
                        assert(prop_iterate(game.rows@, game.columns@, k + 1) is None);
                        assert(prop_chain_fails(game.rows@, game.columns@));
                        lemma_fails_excludes_fixpoints(game.rows@, game.columns@);
                    }
                    return Err(PicrossError::Contradiction);
                },
            };
            proof {
                assert forall|s: Seq<Seq<TileState>>|
                    #[trigger] is_solution(game.rows@, game.columns@, s) implies board_refines(
                    s,
                    next@,
                ) by {
                    lemma_solution_survives_step(game.rows@, game.columns@, current@, s);
                }
            }
            if next == current {
                proof {
                    assert(prop_step(game.rows@, game.columns@, current@) == Some(next@));
                    assert(next@ == current@);
                    assert(prop_iterate(game.rows@, game.columns@, k + 1) == prop_iterate(
                        game.rows@,
                        game.columns@,
                        k,
                    ));
                    assert(prop_fixpoint_at(game.rows@, game.columns@, k));
                    lemma_fixpoint_no_fail(game.rows@, game.columns@, k);
                }
                if current.is_fully_determined() {
                    proof {
                        lemma_fixpoint_solution(game.rows@, game.columns@, current@);
                        assert(prop_determines(game.rows@, game.columns@));
                        if prop_stalls(game.rows@, game.columns@) {
                            let m = choose|m: nat|
                                #[trigger] prop_fixpoint_at(game.rows@, game.columns@, m)
                                    && !crate::game_board::board_determined(
                                    prop_iterate(game.rows@, game.columns@, m).unwrap(),
                                );
                            lemma_fixpoint_value_unique(game.rows@, game.columns@, m, k);
                            assert(false);
                        }
                    }
                    match PicrossFrame::new(game.duplicate(), current, GameState::Complete) {
                        Ok(frame) => {
                            proof {
                                assert forall|n: nat|
                                    #[trigger] prop_fixpoint_at(
                                        game.rows@,
                                        game.columns@,
                                        n,
                                    ) implies prop_iterate(game.rows@, game.columns@, n) == Some(
                                    frame.board@,
                                ) by {
                                    lemma_fixpoint_value_unique(game.rows@, game.columns@, n, k);
                                }
                            }
                            return Ok(frame);
                        },
                        Err(_) => {
                            proof {
                                if self.0.wf() {
                                    assert(axis_wf(game.rows@));
                                    assert(current@.len() == h);
                                    assert(h >= 1);
                                    assert(current@[0].len() == w);
                                    assert(false);
                                }
                            }
                            return Err(PicrossError::Incomplete);
                        },
                    }
                } else {
                    proof {
                        assert(prop_stalls(game.rows@, game.columns@));
                        if prop_determines(game.rows@, game.columns@) {
                            let m = choose|m: nat|
                                #[trigger] prop_fixpoint_at(game.rows@, game.columns@, m)
                                    && crate::game_board::board_determined(
                                    prop_iterate(game.rows@, game.columns@, m).unwrap(),
                                );
                            lemma_fixpoint_value_unique(game.rows@, game.columns@, m, k);
                            assert(false);
                        }
                    }
                    return Err(PicrossError::Incomplete);
                }
            }
            proof {
                assert(prop_step(game.rows@, game.columns@, current@) == Some(next@));
                assert(prop_iterate(game.rows@, game.columns@, k + 1) == Some(next@));
                k = k + 1;
                let mid = rows_pass(game.rows@, w, current@);
                lemma_rows_pass_refines(game.rows@, w, current@);
                assert(mid.len() == h);
                assert(grid(mid, w)) by {
                    assert forall|y: int| 0 <= y < mid.len() implies (#[trigger] mid[y]).len()
                        == w by {
                        assert(crate::picross::line_refines(mid[y], current@[y]));
                    }
                }
                lemma_cols_pass_refines(game.columns@, h, mid);
                lemma_board_refines_trans(next@, mid, current@);
                lemma_board_refines_count(next@, current@);
                assert(next@ != current@);
            }
            current = next;
        }
    }

    fn from_game(game: PicrossGame) -> (s: Self) {
        PicrossSolverV2(game)
    }

    fn set_game(&mut self, game: PicrossGame) {
        self.0 = game;
    }
}

} // verus!
