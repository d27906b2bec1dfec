use vstd::prelude::*;

use crate::error::PicrossError;
use crate::game_board::{board_determined, grid, line_determined, GameBoard, TileState};
use crate::iterators::{all_lines, lemma_all_lines_shape, PicrossLineIter};
use crate::picross::{
    axis_wf, is_solution, lemma_cols_fixpoint_fits, lemma_complete_board_confirms,
    lemma_solution_board_complete, lemma_solution_prefix_valid, line_fits, validate_board,
    BoardState, PicrossGame,
};
use crate::picross::picross_solver_trait::PicrossSolver;
use crate::render::{GameState, PicrossFrame};

verus! {

/// Exhaustive backtracking search: an explicit stack of frames, each
/// holding the rows assigned so far; a frame is pruned when the validator
/// finds a column that already contradicts its rule, extended with every
/// placement of the next row's rule otherwise. Complete but exponential in
/// the worst case.
pub struct PicrossSolverV1(pub PicrossGame);

struct SearchFrame {
    next_row: usize,
    board: GameBoard,
}

/// A search frame is consistent: the board holds exactly the first
/// `next_row` rows, each a generated placement of its row rule.
spec fn frame_ok(rows: Seq<Seq<usize>>, w: int, f: SearchFrame) -> bool {
    &&& f.board@.len() == f.next_row
    &&& f.next_row <= rows.len()
    &&& grid(f.board@, w)
    &&& forall|i: int|
        0 <= i < f.board@.len() ==> all_lines(rows[i], w).contains(#[trigger] f.board@[i])
}

spec fn stack_ok(rows: Seq<Seq<usize>>, w: int, stack: Seq<SearchFrame>) -> bool {
    forall|k: int| 0 <= k < stack.len() ==> frame_ok(rows, w, #[trigger] stack[k])
}

/// Some frame on the stack holds a prefix of the board `s`: the search has
/// not discarded `s` yet.
spec fn stack_covers(stack: Seq<SearchFrame>, s: Seq<Seq<TileState>>) -> bool {
    exists|k: int|
        0 <= k < stack.len() && (#[trigger] stack[k]).board@ == s.take(stack[k].next_row as int)
}

/// The number of boards the search rooted at row `r` can still visit; the
/// termination measure of the search loop.
spec fn search_measure(rows: Seq<Seq<usize>>, w: int, r: int) -> int
    decreases rows.len() - r,
{
    if r < 0 || r >= rows.len() {
        1
    } else {
        1 + all_lines(rows[r], w).len() * search_measure(rows, w, r + 1)
    }
}

proof fn lemma_search_measure_pos(rows: Seq<Seq<usize>>, w: int, r: int)
    ensures
        search_measure(rows, w, r) >= 1,
    decreases rows.len() - r,
{
    if 0 <= r < rows.len() {
        lemma_search_measure_pos(rows, w, r + 1);
        vstd::arithmetic::mul::lemma_mul_nonnegative(
            all_lines(rows[r], w).len() as int,
            search_measure(rows, w, r + 1),
        );
    }
}

spec fn stack_measure(rows: Seq<Seq<usize>>, w: int, stack: Seq<SearchFrame>) -> int
    decreases stack.len(),
{
    if stack.len() == 0 {
        0
    } else {
        search_measure(rows, w, stack.last().next_row as int) + stack_measure(
            rows,
            w,
            stack.drop_last(),
        )
    }
}

proof fn lemma_stack_measure_nonneg(rows: Seq<Seq<usize>>, w: int, stack: Seq<SearchFrame>)
    ensures
        stack_measure(rows, w, stack) >= 0,
    decreases stack.len(),
{
    if stack.len() > 0 {
        lemma_search_measure_pos(rows, w, stack.last().next_row as int);
        lemma_stack_measure_nonneg(rows, w, stack.drop_last());
    }
}

impl PicrossSolver for PicrossSolverV1 {
    open spec fn game_of(&self) -> PicrossGame {
        self.0
    }

    #[verifier::rlimit(80)]
    fn solve(&self) -> (r: Result<PicrossFrame, PicrossError>)
        ensures
            r matches Err(e) ==> e == PicrossError::NoSolution,
            // The search is complete: on a well-formed puzzle it fails only
            // when no solution exists at all.
            r is Err && self.0.wf() ==> forall|b: Seq<Seq<TileState>>|
                !(#[trigger] is_solution(self.0.rows@, self.0.columns@, b)),
    {
        let game = &self.0;
        let w = game.width();
        let h = game.height();
        let ghost wi = game.columns@.len() as int;
        let ghost rows = game.rows@;
        let mut stack: Vec<SearchFrame> = Vec::new();
        stack.push(SearchFrame { next_row: 0, board: GameBoard(Vec::new()) });
        proof {
            assert(frame_ok(rows, wi, stack@[0]));
            assert(stack@.drop_last() =~= Seq::<SearchFrame>::empty());
            assert forall|s: Seq<Seq<TileState>>|
                is_solution(rows, game.columns@, s) implies stack_covers(stack@, s) by {
                assert(stack@[0].board@ =~= s.take(0));
            }
        }
        while stack.len() > 0
            invariant
                w == game.columns@.len(),
                h == game.rows@.len(),
                rows == game.rows@,
                game.rows@ == self.0.rows@,
                game.columns@ == self.0.columns@,
                wi == w,
                stack_ok(rows, wi, stack@),
                self.0.wf() ==> forall|s: Seq<Seq<TileState>>|
                    #[trigger] is_solution(rows, game.columns@, s) ==> stack_covers(stack@, s),
            decreases stack_measure(rows, wi, stack@),
        {
            proof {
                lemma_stack_measure_nonneg(rows, wi, stack@);
            }
            let ghost pre_stack = stack@;
            let frame = match stack.pop() {
                Some(f) => f,
                None => {
                    proof {
                        assert(false);
                    }
                    return Err(PicrossError::NoSolution);
                },
            };
            proof {
                assert(pre_stack.last() == frame);
                assert(pre_stack.drop_last() =~= stack@);
                assert(frame_ok(rows, wi, frame));
                lemma_search_measure_pos(rows, wi, frame.next_row as int);
            }
            match validate_board(game, &frame.board) {
                Err(e) => {
                    // Every assigned row is a generated placement, hence
                    // fully determined; so are all columns.
                    proof {
                        let j = choose|j: int|
                            0 <= j < game.columns@.len() && !line_determined(
                                crate::game_board::col_of(frame.board@, j),
                            );
                        assert forall|y: int|
                            0 <= y < crate::game_board::col_of(frame.board@, j).len() implies !((
                        #[trigger] crate::game_board::col_of(frame.board@, j)[y])
                            is Undetermined) by {
                            assert(all_lines(rows[y], wi).contains(frame.board@[y]));
                            lemma_all_lines_shape(rows[y], wi, frame.board@[y]);
                            assert(crate::game_board::col_of(frame.board@, j)[y]
                                == frame.board@[y][j]);
                        }
                        assert(false);
                    }
                    return Err(PicrossError::NoSolution);
                },
                Ok(BoardState::Invalid) => {
                    // Backtrack: this branch already contradicts a column.
                    // No prefix of a solution is ever pruned here.
                    proof {
                        if self.0.wf() {
                            assert forall|s: Seq<Seq<TileState>>|
                                is_solution(rows, game.columns@, s) implies stack_covers(
                                stack@,
                                s,
                            ) by {
                                assert(stack_covers(pre_stack, s));
                                let k = choose|k: int|
                                    0 <= k < pre_stack.len() && (#[trigger] pre_stack[k]).board@
                                        == s.take(pre_stack[k].next_row as int);
                                if k < pre_stack.len() - 1 {
                                    assert(stack@[k] == pre_stack[k]);
                                } else {
                                    assert(frame.board@ == s.take(frame.next_row as int));
                                    assert(axis_wf(game.columns@));
                                    lemma_solution_prefix_valid(
                                        rows,
                                        game.columns@,
                                        s,
                                        frame.next_row as int,
                                    );
                                    assert(false);
                                }
                            }
                        }
                    }
                },
                Ok(BoardState::Complete(complete_board)) => {
                    proof {
                        assert(complete_board@ == frame.board@);
                        assert(complete_board@.len() == h);
                        assert(board_determined(complete_board@)) by {
                            assert forall|y: int| 0 <= y < complete_board@.len() implies
                                line_determined(#[trigger] complete_board@[y]) by {
                                assert(all_lines(rows[y], wi).contains(frame.board@[y]));
                                lemma_all_lines_shape(rows[y], wi, frame.board@[y]);
                            }
                        }
                    }
                    let ghost cb = complete_board@;
                    proof {
                        if self.0.wf() {
                            assert(axis_wf(game.columns@));
                            lemma_complete_board_confirms(game.columns@, h as int, cb);
                        }
                    }
                    // Confirm the columns as the propagation solvers do: a
                    // fully determined board that a column pass leaves
                    // unchanged satisfies every column rule.
                    let confirm = game.get_partial_board_from_columns(
                        Some(complete_board.duplicate()),
                    );
                    match confirm {
                        Ok(out) => {
                            if out == complete_board {
                                proof {
                                    lemma_cols_fixpoint_fits(
                                        game.columns@,
                                        h as int,
                                        complete_board@,
                                    );
                                    assert(is_solution(
                                        game.rows@,
                                        game.columns@,
                                        complete_board@,
                                    ));
                                }
                                match PicrossFrame::new(
                                    game.duplicate(),
                                    complete_board,
                                    GameState::Complete,
                                ) {
                                    Ok(f) => {
                                        return Ok(f);
                                    },
                                    Err(_) => {
                                        proof {
                                            if self.0.wf() {
                                                assert(axis_wf(game.rows@));
                                                assert(h >= 1);
                                                assert(cb[0].len() == wi);
                                                assert(false);
                                            }
                                        }
                                        return Err(PicrossError::NoSolution);
                                    },
                                }
                            } else {
                                proof {
                                    if self.0.wf() {
                                        assert(out@ == cb);
                                        assert(false);
                                    }
                                }
                                return Err(PicrossError::NoSolution);
                            }
                        },
                        Err(_) => {
                            proof {
                                if self.0.wf() {
                                    assert(false);
                                }
                            }
                            return Err(PicrossError::NoSolution);
                        },
                    }
                },
                Ok(BoardState::InProgress) => {
                    if frame.next_row < h {
                        let r = frame.next_row;
                        let ghost m_child = search_measure(rows, wi, r + 1);
                        let ghost total = all_lines(rows[r as int], wi).len() as int;
                        proof {
                            assert(self.0.rows@[r as int] == self.0.rows.0@[r as int]@);
                            lemma_search_measure_pos(rows, wi, r + 1);
                            assert(search_measure(rows, wi, r as int) == 1 + total * m_child);
                        }
                        let chunks = crate::iterators::copy_usizes(&self.0.rows.0[r].0);
                        let mut line_iter = PicrossLineIter::new(chunks, w);
                        let ghost base = stack_measure(rows, wi, stack@);
                        proof {
                            vstd::arithmetic::mul::lemma_mul_basics(m_child);
                            if self.0.wf() {
                                assert forall|s: Seq<Seq<TileState>>|
                                    is_solution(rows, game.columns@, s) implies stack_covers(
                                    stack@,
                                    s,
                                ) || (frame.board@ == s.take(r as int)
                                    && line_iter.remaining().contains(s[r as int])) by {
                                    assert(stack_covers(pre_stack, s));
                                    let k = choose|k: int|
                                        0 <= k < pre_stack.len() && (
                                        #[trigger] pre_stack[k]).board@ == s.take(
                                            pre_stack[k].next_row as int,
                                        );
                                    if k < pre_stack.len() - 1 {
                                        assert(stack@[k] == pre_stack[k]);
                                    } else {
                                        assert(frame.board@ == s.take(r as int));
                                        assert(line_fits(s[r as int], rows[r as int], wi));
                                    }
                                }
                            }
                        }
                        loop
                            invariant
                                w == game.columns@.len(),
                                rows == game.rows@,
                                wi == w,
                                h == game.rows@.len(),
                                0 <= r < h,
                                frame.board@.len() == r,
                                grid(frame.board@, wi),
                                frame_ok(rows, wi, frame),
                                line_iter.spec_width() == wi,
                                m_child == search_measure(rows, wi, r + 1),
                                m_child >= 1,
                                total == all_lines(rows[r as int], wi).len(),
                                line_iter.remaining().len() <= total,
                                line_iter.remaining() == all_lines(rows[r as int], wi).skip(
                                    total - line_iter.remaining().len(),
                                ),
                                stack_ok(rows, wi, stack@),
                                stack_measure(rows, wi, stack@) == base + (total
                                    - line_iter.remaining().len()) * m_child,
                                self.0.wf() ==> forall|s: Seq<Seq<TileState>>|
                                    #[trigger] is_solution(rows, game.columns@, s)
                                        ==> stack_covers(stack@, s) || (frame.board@ == s.take(
                                        r as int,
                                    ) && line_iter.remaining().contains(s[r as int])),
                            ensures
                                line_iter.remaining().len() == 0,
                                stack_ok(rows, wi, stack@),
                                stack_measure(rows, wi, stack@) == base + total * m_child,
                                self.0.wf() ==> forall|s: Seq<Seq<TileState>>|
                                    #[trigger] is_solution(rows, game.columns@, s)
                                        ==> stack_covers(stack@, s),
                            decreases line_iter.remaining().len(),
                        {
                            let ghost rem_before = line_iter.remaining();
                            let next_line = line_iter.next();
                            match next_line {
                                None => {
                                    proof {
                                        assert(rem_before.len() == 0);
                                        if self.0.wf() {
                                            assert forall|s: Seq<Seq<TileState>>|
                                                is_solution(rows, game.columns@, s) implies
                                                stack_covers(stack@, s) by {
                                                if !stack_covers(stack@, s) {
                                                    assert(rem_before.contains(s[r as int]));
                                                }
                                            }
                                        }
                                    }
                                    break;
                                },
                                Some(line) => {
                                    proof {
                                        assert(rem_before.len() > 0);
                                        assert(line@ == rem_before[0]);
                                        let consumed = total - rem_before.len();
                                        assert(rem_before == all_lines(rows[r as int], wi).skip(
                                            consumed,
                                        ));
                                        assert(rem_before[0] == all_lines(rows[r as int], wi)[
                                        consumed]);
                                        assert(all_lines(rows[r as int], wi).contains(line@));
                                        assert(line_iter.remaining() =~= all_lines(
                                            rows[r as int],
                                            wi,
                                        ).skip(consumed + 1));
                                    }
                                    let mut nb = frame.board.duplicate();
                                    let ghost nb_pre = nb@;
                                    nb.0.push(line);
                                    proof {
                                        assert(nb@ =~= nb_pre.push(line@));
                                    }
                                    let child = SearchFrame { next_row: r + 1, board: nb };
                                    proof {
                                        assert(frame_ok(rows, wi, child)) by {
                                            assert(child.board@.len() == r + 1);
                                            lemma_all_lines_shape(rows[r as int], wi, line@);
                                            assert forall|i: int|
                                                0 <= i < child.board@.len() implies all_lines(
                                                rows[i],
                                                wi,
                                            ).contains(#[trigger] child.board@[i]) by {
                                                if i < r {
                                                    assert(child.board@[i] == frame.board@[i]);
                                                } else {
                                                    assert(child.board@[i] == line@);
                                                }
                                            }
                                            assert forall|y: int|
                                                0 <= y < child.board@.len() implies (
                                            #[trigger] child.board@[y]).len() == wi by {
                                                if y < r {
                                                    assert(child.board@[y] == frame.board@[y]);
                                                } else {
                                                    assert(child.board@[y] == line@);
                                                }
                                            }
                                        }
                                    }
                                    let ghost pre_push = stack@;
                                    stack.push(child);
                                    proof {
                                        assert(stack@.drop_last() =~= pre_push);
                                        assert(stack@.last() == child);
                                        assert(stack_measure(rows, wi, stack@) == m_child
                                            + stack_measure(rows, wi, pre_push));
                                        assert(stack_ok(rows, wi, stack@)) by {
                                            assert forall|k: int|
                                                0 <= k < stack@.len() implies frame_ok(
                                                rows,
                                                wi,
                                                #[trigger] stack@[k],
                                            ) by {
                                                if k < pre_push.len() {
                                                    assert(stack@[k] == pre_push[k]);
                                                } else {
                                                    assert(stack@[k] == child);
                                                }
                                            }
                                        }
                                        let consumed = total - rem_before.len();
                                        assert((base + consumed * m_child) + m_child == base + (
                                        consumed + 1) * m_child) by {
                                            vstd::arithmetic::mul::lemma_mul_is_distributive_add(
                                                m_child,
                                                consumed,
                                                1,
                                            );
                                            vstd::arithmetic::mul::lemma_mul_is_commutative(
                                                m_child,
                                                consumed,
                                            );
                                            vstd::arithmetic::mul::lemma_mul_is_commutative(
                                                m_child,
                                                consumed + 1,
                                            );
                                            vstd::arithmetic::mul::lemma_mul_basics(m_child);
                                        }
                                        if self.0.wf() {
                                            assert forall|s: Seq<Seq<TileState>>|
                                                is_solution(rows, game.columns@, s) implies
                                                stack_covers(stack@, s) || (frame.board@ == s.take(
                                                r as int,
                                            ) && line_iter.remaining().contains(
                                                s[r as int],
                                            )) by {
                                                if stack_covers(pre_push, s) {
                                                    let k = choose|k: int|
                                                        0 <= k < pre_push.len() && (
                                                        #[trigger] pre_push[k]).board@ == s.take(
                                                            pre_push[k].next_row as int,
                                                        );
                                                    assert(stack@[k] == pre_push[k]);
                                                    assert(stack_covers(stack@, s));
                                                } else if frame.board@ == s.take(r as int)
                                                    && rem_before.contains(s[r as int]) {
                                                    if line@ == s[r as int] {
                                                        assert(s.take(r + 1) =~= s.take(
                                                            r as int,
                                                        ).push(s[r as int]));
                                                        assert(child.board@ == s.take(r + 1));
                                                        assert(stack@[stack@.len() - 1] == child);
                                                        assert(stack_covers(stack@, s));
                                                    } else {
                                                        let idx = choose|idx: int|
                                                            0 <= idx < rem_before.len()
                                                                && rem_before[idx] == s[r as int];
                                                        assert(idx != 0);
                                                        assert(line_iter.remaining()[idx - 1]
                                                            == s[r as int]);
                                                        assert(line_iter.remaining().contains(
                                                            s[r as int],
                                                        ));
                                                    }
                                                }
                                            }
                                        }
                                    }
                                },
                            }
                        }
                        proof {
                            assert(line_iter.remaining().len() == 0);
                            assert(stack_measure(rows, wi, stack@) == base + total * m_child);
                            assert(stack_measure(rows, wi, pre_stack) == base + search_measure(
                                rows,
                                wi,
                                r as int,
                            ));
                            assert(search_measure(rows, wi, r as int) == 1 + total * m_child);
                        }
                    }
                    if frame.next_row == h {
                        // A board with every row assigned that is still only
                        // in progress cannot be extended; no solution is
                        // discarded, since a full solution would have been
                        // classified Complete.
                        proof {
                            if self.0.wf() {
                                assert forall|s: Seq<Seq<TileState>>|
                                    is_solution(rows, game.columns@, s) implies stack_covers(
                                    stack@,
                                    s,
                                ) by {
                                    assert(stack_covers(pre_stack, s));
                                    let k = choose|k: int|
                                        0 <= k < pre_stack.len() && (
                                        #[trigger] pre_stack[k]).board@ == s.take(
                                            pre_stack[k].next_row as int,
                                        );
                                    if k < pre_stack.len() - 1 {
                                        assert(stack@[k] == pre_stack[k]);
                                    } else {
                                        assert(frame.board@ == s.take(h as int));
                                        assert(s.take(h as int) =~= s);
                                        assert(axis_wf(game.columns@));
                                        lemma_solution_board_complete(rows, game.columns@, s);
                                        assert(false);
                                    }
                                }
                            }
                        }
                    }
                },
            }
            proof {
                lemma_stack_measure_nonneg(rows, wi, stack@);
                assert(stack_measure(rows, wi, stack@) < stack_measure(rows, wi, pre_stack));
            }
        }
        proof {
            if self.0.wf() {
                assert forall|s: Seq<Seq<TileState>>|
                    !(#[trigger] is_solution(rows, game.columns@, s)) by {
                    if is_solution(rows, game.columns@, s) {
                        assert(stack_covers(stack@, s));
                        let k = choose|k: int|
                            0 <= k < stack@.len() && (#[trigger] stack@[k]).board@ == s.take(
                                stack@[k].next_row as int,
                            );
                        assert(false);
                    }
                }
            }
        }
        Err(PicrossError::NoSolution)
    }

    fn from_game(game: PicrossGame) -> (s: Self) {
        PicrossSolverV1(game)
    }

    fn set_game(&mut self, game: PicrossGame) {
        self.0 = game;
    }
}

} // verus!
