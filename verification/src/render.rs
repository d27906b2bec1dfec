use vstd::prelude::*;

use crate::error::PicrossError;
use crate::game_board::{GameBoard, TileState};
use crate::picross::{render_rule, AxisRules, LineRule, PicrossGame};
use crate::text::{dec_chars, join_with, lemma_dec_chars_val, lemma_join_push};

verus! {

/// The state a solver reports a board in.
#[derive(Clone, Copy, Debug, PartialEq, Eq, Structural)]
pub enum GameState {
    InProgress,
    Invalid,
    Complete,
}

/// The text shown for each game state.
pub open spec fn state_label(s: GameState) -> Seq<char> {
    match s {
        GameState::InProgress => seq!['I', 'n', ' ', 'P', 'r', 'o', 'g', 'r', 'e', 's', 's'],
        GameState::Invalid => seq!['I', 'n', 'v', 'a', 'l', 'i', 'd'],
        GameState::Complete => seq!['C', 'o', 'm', 'p', 'l', 'e', 't', 'e'],
    }
}

impl GameState {
    /// The text shown for this state.
    pub fn as_str(&self) -> (r: &'static str)
        ensures
            r@ == state_label(*self),
    {
        let r = match self {
            GameState::InProgress => "In Progress",
            GameState::Invalid => "Invalid",
            GameState::Complete => "Complete",
        };
        proof {
            reveal_strlit("In Progress");
            reveal_strlit("Invalid");
            reveal_strlit("Complete");
            assert(r@ =~= state_label(*self));
        }
        r
    }
}

// ---------------------------------------------------------------------------
// Rule rendering
// ---------------------------------------------------------------------------

/// One rule rendered horizontally: run lengths joined by single spaces.
pub fn render_row_line_rule(rule: &LineRule) -> (r: String)
    ensures
        r@ == render_rule(rule@),
{
    let mut out = String::new();
    crate::picross::append_rule(&mut out, rule);
    out
}

/// The two characters one rule contributes to one header line: its run at
/// `ri` padded to two columns, or two spaces when it has no run there.
pub open spec fn col_rule_cell(rule: Seq<usize>, ri: int) -> Seq<char> {
    if 0 <= ri < rule.len() {
        if dec_chars(rule[ri] as int).len() == 1 {
            dec_chars(rule[ri] as int) + seq![' ']
        } else {
            dec_chars(rule[ri] as int)
        }
    } else {
        seq![' ', ' ']
    }
}

/// One header line: each column rule's cell at `ri`, side by side.
pub open spec fn col_rules_line(rules: Seq<Seq<usize>>, ri: int) -> Seq<char>
    decreases rules.len(),
{
    if rules.len() == 0 {
        Seq::<char>::empty()
    } else {
        col_rules_line(rules.drop_last(), ri) + col_rule_cell(rules.last(), ri)
    }
}

/// The longest rule along the axis.
pub open spec fn max_rule_len(rules: Seq<Seq<usize>>) -> int
    decreases rules.len(),
{
    if rules.len() == 0 {
        0
    } else if rules.last().len() > max_rule_len(rules.drop_last()) {
        rules.last().len() as int
    } else {
        max_rule_len(rules.drop_last())
    }
}

/// The header lines from run position `ri` down to position zero.
pub open spec fn col_axis_lines(rules: Seq<Seq<usize>>, ri: int) -> Seq<Seq<char>>
    decreases ri + 1,
{
    if ri < 0 {
        Seq::<Seq<char>>::empty()
    } else {
        seq![col_rules_line(rules, ri)] + col_axis_lines(rules, ri - 1)
    }
}

/// The column rules rendered vertically: one line per run position, deepest
/// rules on the bottom line, each rule two characters wide.
pub open spec fn render_col_axis_chars(rules: Seq<Seq<usize>>) -> Seq<char> {
    join_with(col_axis_lines(rules, max_rule_len(rules) - 1), '\n')
}

/// One header line of the vertical column-rule rendering.
fn col_rules_line_string(rules: &AxisRules, ri: usize) -> (r: String)
    ensures
        r@ == col_rules_line(rules@, ri as int),
{
    let mut out = String::new();
    let mut k: usize = 0;
    proof {
        assert(rules@.take(0) =~= Seq::<Seq<usize>>::empty());
    }
    while k < rules.0.len()
        invariant
            0 <= k <= rules.0@.len(),
            rules@.len() == rules.0@.len(),
            out@ == col_rules_line(rules@.take(k as int), ri as int),
        decreases rules.0@.len() - k,
    {
        proof {
            assert(rules@[k as int] == rules.0@[k as int]@);
            assert(rules@.take(k + 1).drop_last() =~= rules@.take(k as int));
            assert(rules@.take(k + 1).last() == rules@[k as int]);
        }
        let rule = &rules.0[k];
        if ri < rule.0.len() {
            let v = rule.0[ri];
            proof {
                lemma_dec_chars_val(v as int);
            }
            if v < 10 {
                crate::text::append_dec(&mut out, v);
                out.append(" ");
                proof {
                    reveal_strlit(" ");
                    assert(" "@ =~= seq![' ']);
                    assert(dec_chars(v as int).len() == 1);
                    assert((col_rules_line(rules@.take(k as int), ri as int) + dec_chars(v as int))
                        + seq![' '] =~= col_rules_line(rules@.take(k as int), ri as int) + (
                    dec_chars(v as int) + seq![' ']));
                }
            } else {
                crate::text::append_dec(&mut out, v);
                proof {
                    assert(dec_chars(v as int).len() >= 2) by {
                        lemma_dec_chars_val(v as int / 10);
                    }
                }
            }
        } else {
            out.append("  ");
            proof {
                reveal_strlit("  ");
                assert("  "@ =~= seq![' ', ' ']);
            }
        }
        k += 1;
    }
    proof {
        assert(rules@.take(rules@.len() as int) =~= rules@);
    }
    out
}

/// The longest rule along the axis.
fn max_rule_len_exec(rules: &AxisRules) -> (r: usize)
    ensures
        r == max_rule_len(rules@),
{
    let mut m: usize = 0;
    let mut k: usize = 0;
    proof {
        assert(rules@.take(0) =~= Seq::<Seq<usize>>::empty());
    }
    while k < rules.0.len()
        invariant
            0 <= k <= rules.0@.len(),
            rules@.len() == rules.0@.len(),
            m == max_rule_len(rules@.take(k as int)),
        decreases rules.0@.len() - k,
    {
        proof {
            assert(rules@[k as int] == rules.0@[k as int]@);
            assert(rules@.take(k + 1).drop_last() =~= rules@.take(k as int));
            assert(rules@.take(k + 1).last() == rules@[k as int]);
        }
        let l = rules.0[k].0.len();
        if l > m {
            m = l;
        }
        k += 1;
    }
    proof {
        assert(rules@.take(rules@.len() as int) =~= rules@);
    }
    m
}

/// Render the rules of a column axis vertically: one line per run position,
/// the first runs of the deepest rules on top, each rule two characters
/// wide.
pub fn render_column_axis_rules(rules: &AxisRules) -> (r: String)
    ensures
        r@ == render_col_axis_chars(rules@),
{
    let row_count = max_rule_len_exec(rules);
    let mut out = String::new();
    let ghost top = row_count as int - 1;
    let ghost mut done: Seq<Seq<char>> = Seq::empty();
    let mut ri_plus: usize = row_count;
    proof {
        assert(done + col_axis_lines(rules@, top) =~= col_axis_lines(rules@, top));
        assert(join_with(done, '\n') =~= Seq::<char>::empty());
    }
    while ri_plus > 0
        invariant
            0 <= ri_plus <= row_count,
            top == row_count as int - 1,
            done.len() == row_count - ri_plus,
            col_axis_lines(rules@, top) == done + col_axis_lines(rules@, ri_plus as int - 1),
            out@ == join_with(done, '\n'),
        decreases ri_plus,
    {
        let ri = ri_plus - 1;
        let line = col_rules_line_string(rules, ri);
        proof {
            assert(col_axis_lines(rules@, ri as int) == seq![col_rules_line(rules@, ri as int)]
                + col_axis_lines(rules@, ri as int - 1));
            lemma_join_push(done, line@, '\n');
            assert(done.push(line@) + col_axis_lines(rules@, ri as int - 1) =~= done + (seq![
                col_rules_line(rules@, ri as int),
            ] + col_axis_lines(rules@, ri as int - 1)));
        }
        if ri_plus < row_count {
            proof {
                assert(done.len() > 0);
            }
            out.append("\n");
            proof {
                reveal_strlit("\n");
                assert("\n"@ =~= seq!['\n']);
            }
        }
        proof {
            if ri_plus == row_count {
                assert(done.len() == 0);
            }
        }
        out.append(line.as_str());
        proof {
            done = done.push(line@);
        }
        ri_plus -= 1;
    }
    proof {
        assert(col_axis_lines(rules@, -1) =~= Seq::<Seq<char>>::empty());
        assert(done + Seq::<Seq<char>>::empty() =~= done);
        assert(done == col_axis_lines(rules@, top));
    }
    out
}

/// A board paired with the puzzle it belongs to and the state a solver
/// reports it in; the dimensions of the two always agree.
pub struct PicrossFrame {
    pub game_state: GameState,
    pub game: PicrossGame,
    pub board: GameBoard,
}

/// A run of `n` spaces.
pub open spec fn spaces(n: int) -> Seq<char>
    decreases n,
{
    if n <= 0 {
        Seq::<char>::empty()
    } else {
        spaces(n - 1) + seq![' ']
    }
}

/// The two characters one cell of a frame renders as.
pub open spec fn tile_cell(t: TileState) -> Seq<char> {
    match t {
        TileState::Filled => seq!['\u{2588}', '\u{2588}'],
        TileState::Empty => seq![' ', ' '],
        TileState::Undetermined => seq!['?', '?'],
    }
}

/// One board row rendered two characters per cell.
pub open spec fn frame_row_chars(l: Seq<TileState>) -> Seq<char>
    decreases l.len(),
{
    if l.len() == 0 {
        Seq::<char>::empty()
    } else {
        frame_row_chars(l.drop_last()) + tile_cell(l.last())
    }
}

/// The width of the widest rendered row rule.
pub open spec fn max_rule_width(rows: Seq<Seq<usize>>) -> int
    decreases rows.len(),
{
    if rows.len() == 0 {
        0
    } else if render_rule(rows.last()).len() > max_rule_width(rows.drop_last()) {
        render_rule(rows.last()).len() as int
    } else {
        max_rule_width(rows.drop_last())
    }
}

proof fn lemma_max_rule_width_ge(rows: Seq<Seq<usize>>, y: int)
    requires
        0 <= y < rows.len(),
    ensures
        render_rule(rows[y]).len() <= max_rule_width(rows),
        max_rule_width(rows) >= 0,
    decreases rows.len(),
{
    if rows.len() > 0 {
        if y == rows.len() - 1 {
            if rows.len() == 1 {
            } else {
                lemma_max_rule_width_ge(rows.drop_last(), 0);
            }
        } else {
            assert(rows.drop_last()[y] == rows[y]);
            lemma_max_rule_width_ge(rows.drop_last(), y);
        }
    }
}

/// One line of the row block: the row's rule right-aligned to the widest
/// rule, then its cells.
pub open spec fn frame_row_line(
    rows: Seq<Seq<usize>>,
    b: Seq<Seq<TileState>>,
    pad: int,
    y: int,
) -> Seq<char> {
    spaces(pad - render_rule(rows[y]).len()) + render_rule(rows[y]) + frame_row_chars(b[y])
}

/// The first `n` lines of the row block.
pub open spec fn frame_rows_lines(
    rows: Seq<Seq<usize>>,
    b: Seq<Seq<TileState>>,
    pad: int,
    n: int,
) -> Seq<Seq<char>>
    decreases n,
{
    if n <= 0 {
        Seq::<Seq<char>>::empty()
    } else {
        frame_rows_lines(rows, b, pad, n - 1) + seq![frame_row_line(rows, b, pad, n - 1)]
    }
}

proof fn lemma_frame_rows_lines_len(
    rows: Seq<Seq<usize>>,
    b: Seq<Seq<TileState>>,
    pad: int,
    n: int,
)
    requires
        n >= 0,
    ensures
        frame_rows_lines(rows, b, pad, n).len() == n,
    decreases n,
{
    if n > 0 {
        lemma_frame_rows_lines_len(rows, b, pad, n - 1);
    }
}

/// The full rendering of a frame: its state, the padded column-rule header,
/// and one line per row with the row's rule beside its cells.
pub open spec fn render_frame_chars(
    rows: Seq<Seq<usize>>,
    cols: Seq<Seq<usize>>,
    b: Seq<Seq<TileState>>,
    st: GameState,
) -> Seq<char> {
    let pad = max_rule_width(rows);
    let n = if rows.len() <= b.len() {
        rows.len() as int
    } else {
        b.len() as int
    };
    state_label(st) + seq!['\n'] + seq!['\n'] + join_with(
        col_axis_lines(cols, max_rule_len(cols) - 1).map_values(|l: Seq<char>| spaces(pad) + l),
        '\n',
    ) + seq!['\n'] + join_with(frame_rows_lines(rows, b, pad, n), '\n')
}

/// The two characters one cell renders as.
fn tile_cell_str(t: TileState) -> (r: &'static str)
    ensures
        r@ == tile_cell(t),
{
    let r = match t {
        TileState::Filled => "\u{2588}\u{2588}",
        TileState::Empty => "  ",
        TileState::Undetermined => "??",
    };
    proof {
        reveal_strlit("\u{2588}\u{2588}");
        reveal_strlit("  ");
        reveal_strlit("??");
        assert(r@ =~= tile_cell(t));
    }
    r
}

/// Append `n` spaces to the output.
fn append_spaces(out: &mut String, n: usize)
    ensures
        final(out)@ == old(out)@ + spaces(n as int),
{
    let mut i: usize = 0;
    proof {
        assert(old(out)@ + spaces(0) =~= old(out)@);
    }
    while i < n
        invariant
            0 <= i <= n,
            out@ == old(out)@ + spaces(i as int),
        decreases n - i,
    {
        out.append(" ");
        proof {
            reveal_strlit(" ");
            assert(" "@ =~= seq![' ']);
            assert((old(out)@ + spaces(i as int)) + seq![' '] =~= old(out)@ + spaces(i + 1));
        }
        i += 1;
    }
}

/// The width of the widest rendered row rule.
fn max_rule_width_exec(rows: &AxisRules) -> (r: usize)
    ensures
        r == max_rule_width(rows@),
{
    let mut m: usize = 0;
    let mut k: usize = 0;
    proof {
        assert(rows@.take(0) =~= Seq::<Seq<usize>>::empty());
    }
    while k < rows.0.len()
        invariant
            0 <= k <= rows.0@.len(),
            rows@.len() == rows.0@.len(),
            m == max_rule_width(rows@.take(k as int)),
        decreases rows.0@.len() - k,
    {
        proof {
            assert(rows@[k as int] == rows.0@[k as int]@);
            assert(rows@.take(k + 1).drop_last() =~= rows@.take(k as int));
            assert(rows@.take(k + 1).last() == rows@[k as int]);
        }
        let rendered = render_row_line_rule(&rows.0[k]);
        let l = rendered.as_str().unicode_len();
        if l > m {
            m = l;
        }
        k += 1;
    }
    proof {
        assert(rows@.take(rows@.len() as int) =~= rows@);
    }
    m
}

impl PicrossFrame {
    /// The puzzle the framed board belongs to.
    pub open spec fn game_of(&self) -> PicrossGame {
        self.game
    }

    /// Render the frame: the state on top, then the column rules as a
    /// padded header, then each row's rule beside its cells, every cell two
    /// characters wide.
    pub fn render(&self) -> (r: String)
        ensures
            r@ == render_frame_chars(self.game.rows@, self.game.columns@, self.board@, self.game_state),
    {
        let pad = max_rule_width_exec(&self.game.rows);
        let mut out = String::new();
        out.append(self.game_state.as_str());
        out.append("\n\n");
        proof {
            reveal_strlit("\n\n");
            assert("\n\n"@ =~= seq!['\n', '\n']);
            assert((state_label(self.game_state) + seq!['\n', '\n']) =~= state_label(
                self.game_state,
            ) + seq!['\n'] + seq!['\n']);
        }
        // The padded column-rule header.
        let ghost base1 = out@;
        let row_count = max_rule_len_exec(&self.game.columns);
        let ghost top = row_count as int - 1;
        let ghost mut done: Seq<Seq<char>> = Seq::empty();
        let mut ri_plus: usize = row_count;
        proof {
            assert(done + col_axis_lines(self.game.columns@, top) =~= col_axis_lines(
                self.game.columns@,
                top,
            ));
            assert(join_with(done.map_values(|l: Seq<char>| spaces(pad as int) + l), '\n') =~= Seq::<
                char,
            >::empty());
            assert(out@ =~= base1 + join_with(
                done.map_values(|l: Seq<char>| spaces(pad as int) + l),
                '\n',
            ));
        }
        while ri_plus > 0
            invariant
                0 <= ri_plus <= row_count,
                top == row_count as int - 1,
                done.len() == row_count - ri_plus,
                col_axis_lines(self.game.columns@, top) == done + col_axis_lines(
                    self.game.columns@,
                    ri_plus as int - 1,
                ),
                out@ == base1 + join_with(
                    done.map_values(|l: Seq<char>| spaces(pad as int) + l),
                    '\n',
                ),
            decreases ri_plus,
        {
            let ri = ri_plus - 1;
            if ri_plus < row_count {
                proof {
                    assert(done.len() > 0);
                    assert(done.map_values(|l: Seq<char>| spaces(pad as int) + l).len() > 0);
                }
                out.append("\n");
                proof {
                    reveal_strlit("\n");
                    assert("\n"@ =~= seq!['\n']);
                }
            } else {
                proof {
                    assert(done.len() == 0);
                    assert(done.map_values(|l: Seq<char>| spaces(pad as int) + l).len() == 0);
                }
            }
            append_spaces(&mut out, pad);
            let line = col_rules_line_string(&self.game.columns, ri);
            out.append(line.as_str());
            proof {
                let f = |l: Seq<char>| spaces(pad as int) + l;
                assert(col_axis_lines(self.game.columns@, ri as int) == seq![
                    col_rules_line(self.game.columns@, ri as int),
                ] + col_axis_lines(self.game.columns@, ri as int - 1));
                lemma_join_push(done.map_values(f), f(line@), '\n');
                assert(done.push(line@).map_values(f) =~= done.map_values(f).push(f(line@)));
                assert(done.push(line@) + col_axis_lines(self.game.columns@, ri as int - 1) =~= done
                    + (seq![col_rules_line(self.game.columns@, ri as int)] + col_axis_lines(
                    self.game.columns@,
                    ri as int - 1,
                )));
                if done.len() > 0 {
                    assert((base1 + join_with(done.map_values(f), '\n')) + seq!['\n'] + spaces(
                        pad as int,
                    ) + line@ =~= base1 + (join_with(done.map_values(f), '\n') + seq!['\n'] + f(
                        line@,
                    )));
                } else {
                    assert(base1 + spaces(pad as int) + line@ =~= base1 + f(line@));
                }
                done = done.push(line@);
            }
            ri_plus -= 1;
        }
        proof {
            assert(col_axis_lines(self.game.columns@, -1) =~= Seq::<Seq<char>>::empty());
            assert(done + Seq::<Seq<char>>::empty() =~= done);
            assert(done == col_axis_lines(self.game.columns@, top));
        }
        out.append("\n");
        proof {
            reveal_strlit("\n");
            assert("\n"@ =~= seq!['\n']);
        }
        // Each row's rule beside its rendered cells.
        let ghost base2 = out@;
        let n = if self.game.rows.0.len() <= self.board.0.len() {
            self.game.rows.0.len()
        } else {
            self.board.0.len()
        };
        let mut y: usize = 0;
        proof {
            assert(frame_rows_lines(self.game.rows@, self.board@, pad as int, 0) =~= Seq::<
                Seq<char>,
            >::empty());
            assert(out@ =~= base2 + join_with(
                frame_rows_lines(self.game.rows@, self.board@, pad as int, 0),
                '\n',
            ));
        }
        while y < n
            invariant
                0 <= y <= n,
                self.game.rows@.len() == self.game.rows.0@.len(),
                self.board@.len() == self.board.0@.len(),
                n == if self.game.rows@.len() <= self.board@.len() {
                    self.game.rows@.len()
                } else {
                    self.board@.len()
                },
                pad == max_rule_width(self.game.rows@),
                out@ == base2 + join_with(
                    frame_rows_lines(self.game.rows@, self.board@, pad as int, y as int),
                    '\n',
                ),
            decreases n - y,
        {
            let ghost lines_done = frame_rows_lines(
                self.game.rows@,
                self.board@,
                pad as int,
                y as int,
            );
            proof {
                assert(frame_rows_lines(self.game.rows@, self.board@, pad as int, y + 1)
                    == lines_done + seq![
                    frame_row_line(self.game.rows@, self.board@, pad as int, y as int),
                ]);
                assert(lines_done + seq![
                    frame_row_line(self.game.rows@, self.board@, pad as int, y as int),
                ] =~= lines_done.push(
                    frame_row_line(self.game.rows@, self.board@, pad as int, y as int),
                ));
                lemma_join_push(
                    lines_done,
                    frame_row_line(self.game.rows@, self.board@, pad as int, y as int),
                    '\n',
                );
                lemma_frame_rows_lines_len(self.game.rows@, self.board@, pad as int, y as int);
                assert(lines_done.len() == y);
            }
            if y > 0 {
                out.append("\n");
                proof {
                    reveal_strlit("\n");
                    assert("\n"@ =~= seq!['\n']);
                }
            }
            let ghost line_base = out@;
            proof {
                assert(self.game.rows@[y as int] == self.game.rows.0@[y as int]@);
                lemma_max_rule_width_ge(self.game.rows@, y as int);
            }
            let rule_str = render_row_line_rule(&self.game.rows.0[y]);
            let rule_len = rule_str.as_str().unicode_len();
            append_spaces(&mut out, pad - rule_len);
            out.append(rule_str.as_str());
            let ghost cells_base = out@;
            let row = &self.board.0[y];
            proof {
                assert(self.board@[y as int] == self.board.0@[y as int]@);
            }
            let mut x: usize = 0;
            proof {
                assert(frame_row_chars(row.0@.take(0)) =~= Seq::<char>::empty());
                assert(out@ =~= cells_base + frame_row_chars(row.0@.take(0)));
            }
            while x < row.0.len()
                invariant
                    0 <= x <= row.0@.len(),
                    out@ == cells_base + frame_row_chars(row.0@.take(x as int)),
                decreases row.0@.len() - x,
            {
                proof {
                    assert(row.0@.take(x + 1).drop_last() =~= row.0@.take(x as int));
                    assert(row.0@.take(x + 1).last() == row.0@[x as int]);
                    assert((cells_base + frame_row_chars(row.0@.take(x as int))) + tile_cell(
                        row.0@[x as int],
                    ) =~= cells_base + frame_row_chars(row.0@.take(x + 1)));
                }
                out.append(tile_cell_str(row.0[x]));
                x += 1;
            }
            proof {
                assert(row.0@.take(row.0@.len() as int) =~= row.0@);
                assert(out@ == cells_base + frame_row_chars(self.board@[y as int]));
                assert(out@ =~= line_base + frame_row_line(
                    self.game.rows@,
                    self.board@,
                    pad as int,
                    y as int,
                ));
                if y > 0 {
                    assert((base2 + join_with(lines_done, '\n')) + seq!['\n'] + frame_row_line(
                        self.game.rows@,
                        self.board@,
                        pad as int,
                        y as int,
                    ) =~= base2 + (join_with(lines_done, '\n') + seq!['\n'] + frame_row_line(
                        self.game.rows@,
                        self.board@,
                        pad as int,
                        y as int,
                    )));
                }
            }
            y += 1;
        }
        proof {
            assert(out@ =~= render_frame_chars(
                self.game.rows@,
                self.game.columns@,
                self.board@,
                self.game_state,
            ));
        }
        out
    }

    /// Frame a board, failing when its dimensions do not match the puzzle's.
    pub fn new(game: PicrossGame, board: GameBoard, game_state: GameState) -> (r: Result<
        Self,
        PicrossError,
    >)
        ensures
            ({
                let bw: int = if board@.len() == 0 {
                    0
                } else {
                    board@[0].len() as int
                };
                let dims_ok = bw == game.columns@.len() && board@.len() == game.rows@.len();
                match r {
                    Ok(f) => dims_ok && f.game_of().rows@ == game.rows@ && f.game_of().columns@
                        == game.columns@ && f.board@ == board@ && f.game_state == game_state,
                    Err(e) => e == PicrossError::DimensionMismatch && !dims_ok,
                }
            }),
    {
        if game.width() != board.width() || game.height() != board.height() {
            return Err(PicrossError::DimensionMismatch);
        }
        Ok(PicrossFrame { game, board, game_state })
    }
}

} // verus!
