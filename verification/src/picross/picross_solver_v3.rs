use vstd::prelude::*;

use crate::error::PicrossError;
use crate::game_board::{col_of, grid, GameBoard, GameBoardRow, TileState};
use crate::picross::{
    axis_wf, board_refines, is_solution, lemma_board_refines_count, lemma_board_refines_trans,
    lemma_chain_below_fixed, lemma_chain_stabilizes, lemma_cols_pass_refines,
    lemma_empty_board_refines, lemma_fails_excludes_fixpoints, lemma_fixpoint_no_fail,
    lemma_fixpoint_solution, lemma_fixpoint_value_unique, lemma_iterate_shape,
    lemma_line_fixed_absorb, lemma_refines_antisym, lemma_rows_pass_refines,
    lemma_solution_survives_line, lemma_solution_survives_step, lemma_step_below_fixed,
    lemma_step_fix_lines_fixed, line_refines, lines_fixed, partial_line_spec, prop_chain_fails,
    prop_determines, prop_fixpoint_at, prop_iterate, prop_stalls, prop_step, rows_pass,
    undet_count, PicrossGame,
};
use crate::picross::picross_solver_trait::PicrossSolver;
use crate::iterators::PicrossLineIter;
use crate::render::{GameState, PicrossFrame};

verus! {

/// Which axis a queued line lies on.
#[derive(Clone, Copy, Debug, PartialEq, Eq, Structural)]
enum ToCheck {
    Row,
    Column,
}

/// Worklist line propagation: the same line intersections as fixed-point
/// propagation, but only lines crossed by a freshly determined cell are
/// reprocessed. A final pass confirms the fixed point exactly as the
/// fixed-point solver does; like it, this strategy never backtracks.
pub struct PicrossSolverV3(pub PicrossGame);

/// Whether the pending part of the queue holds the item.
fn queue_contains(queue: &Vec<(ToCheck, usize)>, head: usize, item: (ToCheck, usize)) -> (r: bool)
    requires
        head <= queue@.len(),
{
    let mut i: usize = head;
    while i < queue.len()
        invariant
            head <= i <= queue@.len(),
        decreases queue@.len() - i,
    {
        if queue[i].0 == item.0 && queue[i].1 == item.1 {
            return true;
        }
        i += 1;
    }
    false
}

impl PicrossSolver for PicrossSolverV3 {
    open spec fn game_of(&self) -> PicrossGame {
        self.0
    }

    #[verifier::rlimit(80)]
    fn solve(&self) -> (r: Result<PicrossFrame, PicrossError>)
        ensures
            r matches Err(e) ==> e == PicrossError::Contradiction || e == PicrossError::Incomplete,
            // A contradiction is definitive: the puzzle has no solution.
            r matches Err(e) && e == PicrossError::Contradiction ==> forall|
                b: Seq<Seq<TileState>>,
            |
                !(#[trigger] is_solution(self.0.rows@, self.0.columns@, b)),
            // The outcome is exactly the fixed-point solver's, read off the
            // same propagation chain: a contradiction iff some line pass
            // fails; on a well-formed puzzle, success iff the chain's fixed
            // point is fully determined, the stall outcome iff it is not.
            (r matches Err(e) && e == PicrossError::Contradiction) <==> prop_chain_fails(
                self.0.rows@,
                self.0.columns@,
            ),
            self.0.wf() ==> (r is Ok <==> prop_determines(self.0.rows@, self.0.columns@)),
            self.0.wf() ==> ((r matches Err(e) && e == PicrossError::Incomplete) <==> prop_stalls(
                self.0.rows@,
                self.0.columns@,
            )),
            r matches Ok(f) ==> forall|n: nat|
                #[trigger] prop_fixpoint_at(self.0.rows@, self.0.columns@, n) ==> prop_iterate(
                    self.0.rows@,
                    self.0.columns@,
                    n,
                ) == Some(f.board@),
    {
        let game = &self.0;
        let w = game.width();
        let h = game.height();
        let ghost wi = game.columns@.len() as int;
        let ghost hi = game.rows@.len() as int;
        let mut board = GameBoard::new(w, h);
        proof {
            assert forall|s: Seq<Seq<TileState>>|
                #[trigger] is_solution(game.rows@, game.columns@, s) implies board_refines(
                s,
                board@,
            ) by {
                lemma_empty_board_refines(s, wi, hi);
            }
            assert forall|f: Seq<Seq<TileState>>|
                #[trigger] lines_fixed(game.rows@, game.columns@, f) implies board_refines(
                f,
                board@,
            ) by {
                lemma_empty_board_refines(f, wi, hi);
            }
        }
        let mut queue: Vec<(ToCheck, usize)> = Vec::new();
        let mut head: usize = 0;
        let mut ci: usize = 0;
        while ci < w
            invariant
                0 <= ci <= w,
                w == game.columns@.len(),
                queue@.len() == ci,
                forall|t: int|
                    0 <= t < queue@.len() ==> ((#[trigger] queue@[t]).0 is Column && queue@[t].1
                        < w),
            decreases w - ci,
        {
            queue.push((ToCheck::Column, ci));
            ci += 1;
        }
        let mut ri: usize = 0;
        while ri < h
            invariant
                0 <= ri <= h,
                h == game.rows@.len(),
                w == game.columns@.len(),
                queue@.len() == w + ri,
                forall|t: int|
                    0 <= t < queue@.len() ==> ((#[trigger] queue@[t]).0 is Column && queue@[t].1
                        < w) || (queue@[t].0 is Row && queue@[t].1 < h),
            decreases h - ri,
        {
            queue.push((ToCheck::Row, ri));
            ri += 1;
        }
        // Incremental propagation: reprocess only lines crossed by a newly
        // determined cell.
        while head < queue.len()
            invariant
                w == game.columns@.len(),
                h == game.rows@.len(),
                game.rows@ == self.0.rows@,
                game.columns@ == self.0.columns@,
                wi == w,
                hi == h,
                0 <= head <= queue@.len(),
                board@.len() == h,
                grid(board@, wi),
                forall|s: Seq<Seq<TileState>>|
                    #[trigger] is_solution(game.rows@, game.columns@, s) ==> board_refines(
                        s,
                        board@,
                    ),
                forall|f: Seq<Seq<TileState>>|
                    #[trigger] lines_fixed(game.rows@, game.columns@, f) ==> board_refines(
                        f,
                        board@,
                    ),
                forall|t: int|
                    0 <= t < queue@.len() ==> ((#[trigger] queue@[t]).0 is Column && queue@[t].1
                        < w) || (queue@[t].0 is Row && queue@[t].1 < h),
            decreases undet_count(board@), queue@.len() - head,
        {
            proof {
                assert(board_refines(board@, board@));
                lemma_board_refines_count(board@, board@);
            }
            let ghost undet0 = undet_count(board@);
            let ghost qlen0 = queue@.len();
            let (axis, index) = queue[head];
            proof {
                assert((axis, index) == queue@[head as int]);
            }
            head += 1;
            match axis {
                ToCheck::Row => {
                    let row_index = index;
                    proof {
                        assert(row_index < h);
                        assert(self.0.rows@.len() == self.0.rows.0@.len());
                    }
                    let chunks = crate::iterators::copy_usizes(&self.0.rows.0[row_index].0);
                    let mut line_iter = PicrossLineIter::new(chunks, w);
                    proof {
                        assert(board@[row_index as int] == board.0@[row_index as int]@);
                        assert(board@[row_index as int].len() == wi);
                    }
                    let ghost refl = board@[row_index as int];
                    let solved = match line_iter.get_partially_solved_line(
                        Some(&board.0[row_index]),
                    ) {
                        Ok(s) => s,
                        Err(_) => {
                            proof {
                                assert forall|s: Seq<Seq<TileState>>|
                                    !(#[trigger] is_solution(game.rows@, game.columns@, s)) by {
                                    if is_solution(game.rows@, game.columns@, s) {
                                        assert(line_refines(s[row_index as int], refl));
                                        lemma_solution_survives_line(
                                            game.rows@[row_index as int],
                                            wi,
                                            refl,
                                            s[row_index as int],
                                        );
                                    }
                                }
                                assert(partial_line_spec(
                                    game.rows@[row_index as int],
                                    wi,
                                    refl,
                                ) is None);
                                if !prop_chain_fails(game.rows@, game.columns@) {
                                    lemma_chain_stabilizes(game.rows@, game.columns@, 0);
                                    let m = choose|m: nat|
                                        #[trigger] prop_fixpoint_at(game.rows@, game.columns@, m);
                                    lemma_iterate_shape(game.rows@, game.columns@, m);
                                    let fb = prop_iterate(game.rows@, game.columns@, m).unwrap();
                                    assert(prop_step(game.rows@, game.columns@, fb) == Some(fb));
                                    lemma_step_fix_lines_fixed(game.rows@, game.columns@, fb);
                                    assert(board_refines(fb, board@));
                                    assert(line_refines(fb[row_index as int], refl));
                                    lemma_line_fixed_absorb(
                                        game.rows@[row_index as int],
                                        wi,
                                        fb[row_index as int],
                                        refl,
                                    );
                                    assert(false);
                                }
                                lemma_fails_excludes_fixpoints(game.rows@, game.columns@);
                            }
                            return Err(PicrossError::Contradiction);
                        },
                    };
                    proof {
                        assert(solved@.len() == wi);
                        assert forall|s: Seq<Seq<TileState>>|
                            #[trigger] is_solution(game.rows@, game.columns@, s) implies
                            line_refines(s[row_index as int], solved@) by {
                            assert(line_refines(s[row_index as int], refl));
                            lemma_solution_survives_line(
                                game.rows@[row_index as int],
                                wi,
                                refl,
                                s[row_index as int],
                            );
                            assert(solved@ == partial_line_spec(
                                game.rows@[row_index as int],
                                wi,
                                refl,
                            ).unwrap());
                        }
                        assert forall|f: Seq<Seq<TileState>>|
                            #[trigger] lines_fixed(game.rows@, game.columns@, f) implies
                            line_refines(f[row_index as int], solved@) by {
                            assert(board_refines(f, board@));
                            assert(line_refines(f[row_index as int], refl));
                            lemma_line_fixed_absorb(
                                game.rows@[row_index as int],
                                wi,
                                f[row_index as int],
                                refl,
                            );
                            assert(solved@ == partial_line_spec(
                                game.rows@[row_index as int],
                                wi,
                                refl,
                            ).unwrap());
                        }
                    }
                    let mut x: usize = 0;
                    while x < w
                        invariant
                            0 <= x <= w,
                            w == game.columns@.len(),
                            h == game.rows@.len(),
                            0 <= row_index < h,
                            solved@.len() == wi,
                            wi == w,
                            hi == h,
                            board@.len() == h,
                            grid(board@, wi),
                            undet_count(board@) <= undet0,
                            queue@.len() >= qlen0,
                            queue@.len() > qlen0 ==> undet_count(board@) < undet0,
                            head <= qlen0,
                            forall|s: Seq<Seq<TileState>>|
                                #[trigger] is_solution(game.rows@, game.columns@, s)
                                    ==> board_refines(s, board@) && line_refines(
                                    s[row_index as int],
                                    solved@,
                                ),
                            forall|f: Seq<Seq<TileState>>|
                                #[trigger] lines_fixed(game.rows@, game.columns@, f)
                                    ==> board_refines(f, board@) && line_refines(
                                    f[row_index as int],
                                    solved@,
                                ),
                            forall|t: int|
                                0 <= t < queue@.len() ==> ((#[trigger] queue@[t]).0 is Column
                                    && queue@[t].1 < w) || (queue@[t].0 is Row && queue@[t].1 < h),
                        decreases w - x,
                    {
                        proof {
                            assert(board@[row_index as int] == board.0@[row_index as int]@);
                            assert(board@[row_index as int].len() == wi);
                        }
                        let cur = board.0[row_index].0[x];
                        let sol = solved.0[x];
                        let flip = matches!(cur, TileState::Undetermined) && !matches!(
                            sol,
                            TileState::Undetermined,
                        );
                        if flip {
                            let ghost pre = board@;
                            let _ = board.set_tile(x, row_index, sol);
                            proof {
                                assert(board@ == pre.update(
                                    row_index as int,
                                    pre[row_index as int].update(x as int, sol),
                                ));
                                assert(board_refines(board@, pre)) by {
                                    assert forall|y: int| 0 <= y < pre.len() implies line_refines(
                                        #[trigger] board@[y],
                                        pre[y],
                                    ) by {
                                        if y != row_index as int {
                                            assert(board@[y] == pre[y]);
                                        }
                                    }
                                }
                                assert(board@ != pre) by {
                                    assert(board@[row_index as int][x as int] == sol);
                                    assert(pre[row_index as int][x as int] is Undetermined);
                                }
                                lemma_board_refines_count(board@, pre);
                                assert forall|s: Seq<Seq<TileState>>|
                                    #[trigger] is_solution(game.rows@, game.columns@, s) implies
                                    board_refines(s, board@) by {
                                    assert(board_refines(s, pre));
                                    assert(line_refines(s[row_index as int], solved@));
                                    assert(s[row_index as int][x as int] == solved@[x as int]);
                                    assert forall|y: int|
                                        0 <= y < board@.len() implies line_refines(
                                        s[y],
                                        #[trigger] board@[y],
                                    ) by {
                                        if y != row_index as int {
                                            assert(board@[y] == pre[y]);
                                        } else {
                                            assert(line_refines(s[y], pre[y]));
                                            assert forall|j: int|
                                                0 <= j < board@[y].len() && !((
                                            #[trigger] board@[y][j]) is Undetermined) implies
                                                s[y][j] == board@[y][j] by {
                                                if j != x as int {
                                                    assert(board@[y][j] == pre[y][j]);
                                                } else {
                                                    assert(board@[y][j] == sol);
                                                }
                                            }
                                        }
                                    }
                                }
                                assert forall|f: Seq<Seq<TileState>>|
                                    #[trigger] lines_fixed(game.rows@, game.columns@, f) implies
                                    board_refines(f, board@) by {
                                    assert(board_refines(f, pre));
                                    assert(line_refines(f[row_index as int], solved@));
                                    assert(f[row_index as int][x as int] == solved@[x as int]);
                                    assert forall|y: int|
                                        0 <= y < board@.len() implies line_refines(
                                        f[y],
                                        #[trigger] board@[y],
                                    ) by {
                                        if y != row_index as int {
                                            assert(board@[y] == pre[y]);
                                        } else {
                                            assert(line_refines(f[y], pre[y]));
                                            assert forall|j: int|
                                                0 <= j < board@[y].len() && !((
                                            #[trigger] board@[y][j]) is Undetermined) implies
                                                f[y][j] == board@[y][j] by {
                                                if j != x as int {
                                                    assert(board@[y][j] == pre[y][j]);
                                                } else {
                                                    assert(board@[y][j] == sol);
                                                }
                                            }
                                        }
                                    }
                                }
                            }
                            if !queue_contains(&queue, head, (ToCheck::Column, x)) {
                                queue.push((ToCheck::Column, x));
                            }
                        }
                        x += 1;
                    }
                },
                ToCheck::Column => {
                    let col_index = index;
                    proof {
                        assert(col_index < w);
                        assert(self.0.columns@.len() == self.0.columns.0@.len());
                    }
                    let chunks = crate::iterators::copy_usizes(&self.0.columns.0[col_index].0);
                    let mut line_iter = PicrossLineIter::new(chunks, h);
                    let col = GameBoardRow(board.get_column(col_index));
                    proof {
                        assert(col@ == col_of(board@, col_index as int));
                        assert(col@.len() == hi);
                    }
                    let ghost crefl = col_of(board@, col_index as int);
                    let solved = match line_iter.get_partially_solved_line(Some(&col)) {
                        Ok(s) => s,
                        Err(_) => {
                            proof {
                                assert forall|s: Seq<Seq<TileState>>|
                                    !(#[trigger] is_solution(game.rows@, game.columns@, s)) by {
                                    if is_solution(game.rows@, game.columns@, s) {
                                        assert(line_refines(col_of(s, col_index as int), crefl))
                                            by {
                                            assert forall|y: int|
                                                0 <= y < crefl.len() && !((#[trigger] crefl[y])
                                                    is Undetermined) implies col_of(
                                                s,
                                                col_index as int,
                                            )[y] == crefl[y] by {
                                                assert(crefl[y] == board@[y][col_index as int]);
                                                assert(line_refines(s[y], board@[y]));
                                            }
                                        }
                                        lemma_solution_survives_line(
                                            game.columns@[col_index as int],
                                            hi,
                                            crefl,
                                            col_of(s, col_index as int),
                                        );
                                    }
                                }
                                assert(partial_line_spec(
                                    game.columns@[col_index as int],
                                    hi,
                                    crefl,
                                ) is None);
                                if !prop_chain_fails(game.rows@, game.columns@) {
                                    lemma_chain_stabilizes(game.rows@, game.columns@, 0);
                                    let m = choose|m: nat|
                                        #[trigger] prop_fixpoint_at(game.rows@, game.columns@, m);
                                    lemma_iterate_shape(game.rows@, game.columns@, m);
                                    let fb = prop_iterate(game.rows@, game.columns@, m).unwrap();
                                    assert(prop_step(game.rows@, game.columns@, fb) == Some(fb));
                                    lemma_step_fix_lines_fixed(game.rows@, game.columns@, fb);
                                    assert(board_refines(fb, board@));
                                    assert(line_refines(col_of(fb, col_index as int), crefl)) by {
                                        assert forall|y: int|
                                            0 <= y < crefl.len() && !((#[trigger] crefl[y])
                                                is Undetermined) implies col_of(
                                            fb,
                                            col_index as int,
                                        )[y] == crefl[y] by {
                                            assert(crefl[y] == board@[y][col_index as int]);
                                            assert(line_refines(fb[y], board@[y]));
                                        }
                                    }
                                    lemma_line_fixed_absorb(
                                        game.columns@[col_index as int],
                                        hi,
                                        col_of(fb, col_index as int),
                                        crefl,
                                    );
                                    assert(false);
                                }
                                lemma_fails_excludes_fixpoints(game.rows@, game.columns@);
                            }
                            return Err(PicrossError::Contradiction);
                        },
                    };
                    proof {
                        assert(solved@.len() == hi);
                        assert forall|s: Seq<Seq<TileState>>|
                            #[trigger] is_solution(game.rows@, game.columns@, s) implies
                            line_refines(col_of(s, col_index as int), solved@) by {
                            assert(line_refines(col_of(s, col_index as int), crefl)) by {
                                assert forall|y: int|
                                    0 <= y < crefl.len() && !((#[trigger] crefl[y])
                                        is Undetermined) implies col_of(s, col_index as int)[y]
                                    == crefl[y] by {
                                    assert(crefl[y] == board@[y][col_index as int]);
                                    assert(line_refines(s[y], board@[y]));
                                }
                            }
                            lemma_solution_survives_line(
                                game.columns@[col_index as int],
                                hi,
                                crefl,
                                col_of(s, col_index as int),
                            );
                            assert(solved@ == partial_line_spec(
                                game.columns@[col_index as int],
                                hi,
                                crefl,
                            ).unwrap());
                        }
                        assert forall|f: Seq<Seq<TileState>>|
                            #[trigger] lines_fixed(game.rows@, game.columns@, f) implies
                            line_refines(col_of(f, col_index as int), solved@) by {
                            assert(board_refines(f, board@));
                            assert(line_refines(col_of(f, col_index as int), crefl)) by {
                                assert forall|y: int|
                                    0 <= y < crefl.len() && !((#[trigger] crefl[y])
                                        is Undetermined) implies col_of(f, col_index as int)[y]
                                    == crefl[y] by {
                                    assert(crefl[y] == board@[y][col_index as int]);
                                    assert(line_refines(f[y], board@[y]));
                                }
                            }
                            lemma_line_fixed_absorb(
                                game.columns@[col_index as int],
                                hi,
                                col_of(f, col_index as int),
                                crefl,
                            );
                            assert(solved@ == partial_line_spec(
                                game.columns@[col_index as int],
                                hi,
                                crefl,
                            ).unwrap());
                        }
                    }
                    let mut y: usize = 0;
                    while y < h
                        invariant
                            0 <= y <= h,
                            w == game.columns@.len(),
                            h == game.rows@.len(),
                            0 <= col_index < w,
                            solved@.len() == hi,
                            col@.len() == hi,
                            wi == w,
                            hi == h,
                            board@.len() == h,
                            grid(board@, wi),
                            undet_count(board@) <= undet0,
                            queue@.len() >= qlen0,
                            queue@.len() > qlen0 ==> undet_count(board@) < undet0,
                            head <= qlen0,
                            forall|s: Seq<Seq<TileState>>|
                                #[trigger] is_solution(game.rows@, game.columns@, s)
                                    ==> board_refines(s, board@) && line_refines(
                                    col_of(s, col_index as int),
                                    solved@,
                                ),
                            forall|f: Seq<Seq<TileState>>|
                                #[trigger] lines_fixed(game.rows@, game.columns@, f)
                                    ==> board_refines(f, board@) && line_refines(
                                    col_of(f, col_index as int),
                                    solved@,
                                ),
                            forall|t: int|
                                0 <= t < queue@.len() ==> ((#[trigger] queue@[t]).0 is Column
                                    && queue@[t].1 < w) || (queue@[t].0 is Row && queue@[t].1 < h),
                        decreases h - y,
                    {
                        proof {
                            assert(board@[y as int] == board.0@[y as int]@);
                            assert(board@[y as int].len() == wi);
                        }
                        let cur = board.0[y].0[col_index];
                        let sol = solved.0[y];
                        let flip = matches!(cur, TileState::Undetermined) && !matches!(
                            sol,
                            TileState::Undetermined,
                        );
                        if flip {
                            let ghost pre = board@;
                            let _ = board.set_tile(col_index, y, sol);
                            proof {
                                assert(board@ == pre.update(
                                    y as int,
                                    pre[y as int].update(col_index as int, sol),
                                ));
                                assert(board_refines(board@, pre)) by {
                                    assert forall|t: int| 0 <= t < pre.len() implies line_refines(
                                        #[trigger] board@[t],
                                        pre[t],
                                    ) by {
                                        if t != y as int {
                                            assert(board@[t] == pre[t]);
                                        }
                                    }
                                }
                                assert(board@ != pre) by {
                                    assert(board@[y as int][col_index as int] == sol);
                                    assert(pre[y as int][col_index as int] is Undetermined);
                                }
                                lemma_board_refines_count(board@, pre);
                                assert forall|s: Seq<Seq<TileState>>|
                                    #[trigger] is_solution(game.rows@, game.columns@, s) implies
                                    board_refines(s, board@) by {
                                    assert(board_refines(s, pre));
                                    assert(line_refines(col_of(s, col_index as int), solved@));
                                    assert(col_of(s, col_index as int)[y as int]
                                        == solved@[y as int]);
                                    assert(col_of(s, col_index as int)[y as int]
                                        == s[y as int][col_index as int]);
                                    assert forall|t: int|
                                        0 <= t < board@.len() implies line_refines(
                                        s[t],
                                        #[trigger] board@[t],
                                    ) by {
                                        if t != y as int {
                                            assert(board@[t] == pre[t]);
                                        } else {
                                            assert(line_refines(s[t], pre[t]));
                                            assert forall|j: int|
                                                0 <= j < board@[t].len() && !((
                                            #[trigger] board@[t][j]) is Undetermined) implies
                                                s[t][j] == board@[t][j] by {
                                                if j != col_index as int {
                                                    assert(board@[t][j] == pre[t][j]);
                                                } else {
                                                    assert(board@[t][j] == sol);
                                                }
                                            }
                                        }
                                    }
                                }
                                assert forall|f: Seq<Seq<TileState>>|
                                    #[trigger] lines_fixed(game.rows@, game.columns@, f) implies
                                    board_refines(f, board@) by {
                                    assert(board_refines(f, pre));
                                    assert(line_refines(col_of(f, col_index as int), solved@));
                                    assert(col_of(f, col_index as int)[y as int]
                                        == solved@[y as int]);
                                    assert(col_of(f, col_index as int)[y as int]
                                        == f[y as int][col_index as int]);
                                    assert forall|t: int|
                                        0 <= t < board@.len() implies line_refines(
                                        f[t],
                                        #[trigger] board@[t],
                                    ) by {
                                        if t != y as int {
                                            assert(board@[t] == pre[t]);
                                        } else {
                                            assert(line_refines(f[t], pre[t]));
                                            assert forall|j: int|
                                                0 <= j < board@[t].len() && !((
                                            #[trigger] board@[t][j]) is Undetermined) implies
                                                f[t][j] == board@[t][j] by {
                                                if j != col_index as int {
                                                    assert(board@[t][j] == pre[t][j]);
                                                } else {
                                                    assert(board@[t][j] == sol);
                                                }
                                            }
                                        }
                                    }
                                }
                            }
                            if !queue_contains(&queue, head, (ToCheck::Row, y)) {
                                queue.push((ToCheck::Row, y));
                            }
                        }
                        y += 1;
                    }
                },
            }
            proof {
                assert(board_refines(board@, board@));
                lemma_board_refines_count(board@, board@);
                assert(undet_count(board@) < undet0 || (undet_count(board@) == undet0 && queue@.len()
                    == qlen0));
            }
        }
        // The terminal check is the fixed-point solver's: confirm the board
        // is a fixed point, then decide Complete against Incomplete.
        let mut current = board;
        loop
            invariant
                wi == game.columns@.len(),
                hi == game.rows@.len(),
                game.rows@ == self.0.rows@,
                game.columns@ == self.0.columns@,
                current@.len() == hi,
                grid(current@, wi),
                forall|s: Seq<Seq<TileState>>|
                    #[trigger] is_solution(game.rows@, game.columns@, s) ==> board_refines(
                        s,
                        current@,
                    ),
                forall|f: Seq<Seq<TileState>>|
                    #[trigger] lines_fixed(game.rows@, game.columns@, f) ==> board_refines(
                        f,
                        current@,
                    ),
            decreases undet_count(current@),
        {
            proof {
                assert(board_refines(current@, current@));
                lemma_board_refines_count(current@, current@);
            }
            let mid = match game.get_partial_board_from_rows(Some(current.duplicate())) {
                Ok(b) => b,
                Err(_) => {
                    proof {
                        assert forall|s: Seq<Seq<TileState>>|
                            !(#[trigger] is_solution(game.rows@, game.columns@, s)) by {
                            if is_solution(game.rows@, game.columns@, s) {
                                lemma_solution_survives_step(
                                    game.rows@,
                                    game.columns@,
                                    current@,
                                    s,
                                );
                            }
                        }
                        if !prop_chain_fails(game.rows@, game.columns@) {
                            lemma_chain_stabilizes(game.rows@, game.columns@, 0);
                            let m = choose|m: nat|
                                #[trigger] prop_fixpoint_at(game.rows@, game.columns@, m);
                            lemma_iterate_shape(game.rows@, game.columns@, m);
                            let fb = prop_iterate(game.rows@, game.columns@, m).unwrap();
                            assert(prop_step(game.rows@, game.columns@, fb) == Some(fb));
                            lemma_step_fix_lines_fixed(game.rows@, game.columns@, fb);
                            assert(board_refines(fb, current@));
                            lemma_step_below_fixed(game.rows@, game.columns@, fb, current@);
                            assert(false);
                        }
                        lemma_fails_excludes_fixpoints(game.rows@, game.columns@);
                    }
                    return Err(PicrossError::Contradiction);
                },
            };
            proof {
                assert(mid@ == rows_pass(game.rows@, wi, current@));
                lemma_rows_pass_refines(game.rows@, wi, current@);
                assert(mid@.len() == hi);
                assert(grid(mid@, wi)) by {
                    assert forall|y: int| 0 <= y < mid@.len() implies (#[trigger] mid@[y]).len()
                        == wi by {
                        assert(line_refines(mid@[y], current@[y]));
                    }
                }
            }
            let ghost midv = mid@;
            let next = match game.get_partial_board_from_columns(Some(mid)) {
                Ok(b) => b,
                Err(_) => {
                    proof {
                        assert forall|s: Seq<Seq<TileState>>|
                            !(#[trigger] is_solution(game.rows@, game.columns@, s)) by {
                            if is_solution(game.rows@, game.columns@, s) {
                                lemma_solution_survives_step(
                                    game.rows@,
                                    game.columns@,
                                    current@,
                                    s,
                                );
                            }
                        }
                        if !prop_chain_fails(game.rows@, game.columns@) {
                            lemma_chain_stabilizes(game.rows@, game.columns@, 0);
                            let m = choose|m: nat|
                                #[trigger] prop_fixpoint_at(game.rows@, game.columns@, m);
                            lemma_iterate_shape(game.rows@, game.columns@, m);
                            let fb = prop_iterate(game.rows@, game.columns@, m).unwrap();
                            assert(prop_step(game.rows@, game.columns@, fb) == Some(fb));
                            lemma_step_fix_lines_fixed(game.rows@, game.columns@, fb);
                            assert(board_refines(fb, current@));
                            lemma_step_below_fixed(game.rows@, game.columns@, fb, current@);
                            assert(false);
                        }
                        lemma_fails_excludes_fixpoints(game.rows@, game.columns@);
                    }
                    return Err(PicrossError::Contradiction);
                },
            };
            proof {
                assert(next@.len() == hi);
                assert(grid(next@, wi)) by {
                    assert forall|y: int| 0 <= y < next@.len() implies (#[trigger] next@[y]).len()
                        == wi by {
                        assert(next@[y] == col_of(
                            crate::picross::cols_pass(game.columns@, hi, midv),
                            y,
                        ));
                    }
                }
            }
            if next == current {
                let ghost mut fixm: nat = 0;
                proof {
                    assert(prop_step(game.rows@, game.columns@, current@) == Some(next@));
                    assert(next@ == current@);
                    lemma_step_fix_lines_fixed(game.rows@, game.columns@, current@);
                    assert(!prop_chain_fails(game.rows@, game.columns@)) by {
                        if prop_chain_fails(game.rows@, game.columns@) {
                            let m0 = choose|m0: nat|
                                prop_iterate(game.rows@, game.columns@, m0) is None;
                            lemma_chain_below_fixed(game.rows@, game.columns@, current@, m0);
                        }
                    }
                    lemma_chain_stabilizes(game.rows@, game.columns@, 0);
                    fixm = choose|m: nat| #[trigger] prop_fixpoint_at(game.rows@, game.columns@, m);
                    lemma_iterate_shape(game.rows@, game.columns@, fixm);
                    let f0 = prop_iterate(game.rows@, game.columns@, fixm).unwrap();
                    assert(prop_step(game.rows@, game.columns@, f0) == Some(f0));
                    lemma_step_fix_lines_fixed(game.rows@, game.columns@, f0);
                    lemma_chain_below_fixed(game.rows@, game.columns@, current@, fixm);
                    assert(board_refines(current@, f0));
                    assert(board_refines(f0, current@));
                    lemma_refines_antisym(f0, current@);
                    assert(prop_iterate(game.rows@, game.columns@, fixm) == Some(current@));
                    lemma_fixpoint_no_fail(game.rows@, game.columns@, fixm);
                }
                if current.is_fully_determined() {
                    proof {
                        lemma_fixpoint_solution(game.rows@, game.columns@, current@);
                        assert(prop_determines(game.rows@, game.columns@));
                        if prop_stalls(game.rows@, game.columns@) {
                            let m = choose|m: nat|
                                #[trigger] prop_fixpoint_at(game.rows@, game.columns@, m)
                                    && !crate::game_board::board_determined(
                                    prop_iterate(game.rows@, game.columns@, m).unwrap(),
                                );
                            lemma_fixpoint_value_unique(game.rows@, game.columns@, m, fixm);
                            assert(false);
                        }
                    }
                    match PicrossFrame::new(game.duplicate(), current, GameState::Complete) {
                        Ok(frame) => {
                            proof {
                                assert forall|n: nat|
                                    #[trigger] prop_fixpoint_at(
                                        game.rows@,
                                        game.columns@,
                                        n,
                                    ) implies prop_iterate(game.rows@, game.columns@, n) == Some(
                                    frame.board@,
                                ) by {
                                    lemma_fixpoint_value_unique(
                                        game.rows@,
                                        game.columns@,
                                        n,
                                        fixm,
                                    );
                                }
                            }
                            return Ok(frame);
                        },
                        Err(_) => {
                            proof {
                                if self.0.wf() {
                                    assert(axis_wf(game.rows@));
                                    assert(current@.len() == hi);
                                    assert(hi >= 1);
                                    assert(current@[0].len() == wi);
                                    assert(false);
                                }
                            }
                            return Err(PicrossError::Incomplete);
                        },
                    }
                } else {
                    proof {
                        assert(prop_stalls(game.rows@, game.columns@));
                        if prop_determines(game.rows@, game.columns@) {
                            let m = choose|m: nat|
                                #[trigger] prop_fixpoint_at(game.rows@, game.columns@, m)
                                    && crate::game_board::board_determined(
                                    prop_iterate(game.rows@, game.columns@, m).unwrap(),
                                );
                            lemma_fixpoint_value_unique(game.rows@, game.columns@, m, fixm);
                            assert(false);
                        }
                    }
                    return Err(PicrossError::Incomplete);
                }
            }
            proof {
                lemma_cols_pass_refines(game.columns@, hi, midv);
                lemma_board_refines_trans(next@, midv, current@);
                lemma_board_refines_count(next@, current@);
                assert(next@ != current@);
                assert forall|s: Seq<Seq<TileState>>|
                    #[trigger] is_solution(game.rows@, game.columns@, s) implies board_refines(
                    s,
                    next@,
                ) by {
                    lemma_solution_survives_step(game.rows@, game.columns@, current@, s);
                }
                assert(prop_step(game.rows@, game.columns@, current@) == Some(next@));
                assert forall|f: Seq<Seq<TileState>>|
                    #[trigger] lines_fixed(game.rows@, game.columns@, f) implies board_refines(
                    f,
                    next@,
                ) by {
                    assert(board_refines(f, current@));
                    lemma_step_below_fixed(game.rows@, game.columns@, f, current@);
                }
            }
            current = next;
        }
    }

    fn from_game(game: PicrossGame) -> (s: Self) {
        PicrossSolverV3(game)
    }

    fn set_game(&mut self, game: PicrossGame) {
        self.0 = game;
    }
}

} // verus!
