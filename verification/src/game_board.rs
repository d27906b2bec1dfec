use vstd::prelude::*;

use crate::error::PicrossError;
use crate::text::join_with;

verus! {

/// The state of one cell of a board.
#[derive(Clone, Copy, Debug, PartialEq, Eq, Structural)]
pub enum TileState {
    Filled,
    Empty,
    Undetermined,
}

/// A placed run: `length` filled cells starting at offset `index` in a line.
#[derive(Clone, Copy, Debug, PartialEq, Eq, Structural)]
pub struct Segment {
    pub length: usize,
    pub index: usize,
}

/// One line of a board: a fixed-width sequence of tile states.
#[derive(Debug)]
pub struct GameBoardRow(pub Vec<TileState>);

/// A rectangular tri-state grid, stored row-major.
#[derive(Debug)]
pub struct GameBoard(pub Vec<GameBoardRow>);

impl View for GameBoardRow {
    type V = Seq<TileState>;

    open spec fn view(&self) -> Seq<TileState> {
        self.0@
    }
}

impl View for GameBoard {
    type V = Seq<Seq<TileState>>;

    open spec fn view(&self) -> Seq<Seq<TileState>> {
        self.0@.map_values(|r: GameBoardRow| r@)
    }
}

impl PartialEq for GameBoardRow {
    fn eq(&self, other: &Self) -> (r: bool) {
        if self.0.len() != other.0.len() {
            return false;
        }
        let mut i: usize = 0;
        while i < self.0.len()
            invariant
                0 <= i <= self.0.len(),
                self.0.len() == other.0.len(),
                forall|j: int| 0 <= j < i ==> self.0@[j] == other.0@[j],
            decreases self.0.len() - i,
        {
            if !(self.0[i] == other.0[i]) {
                return false;
            }
            i += 1;
        }
        proof {
            assert(self.0@ =~= other.0@);
        }
        true
    }
}

impl vstd::std_specs::cmp::PartialEqSpecImpl for GameBoardRow {
    open spec fn obeys_eq_spec() -> bool {
        true
    }

    open spec fn eq_spec(&self, other: &Self) -> bool {
        self@ == other@
    }
}

impl PartialEq for GameBoard {
    fn eq(&self, other: &Self) -> (r: bool) {
        if self.0.len() != other.0.len() {
            proof {
                assert(self@.len() == self.0@.len());
                assert(other@.len() == other.0@.len());
            }
            return false;
        }
        let mut y: usize = 0;
        while y < self.0.len()
            invariant
                0 <= y <= self.0.len(),
                self.0.len() == other.0.len(),
                forall|j: int| 0 <= j < y ==> self.0@[j]@ == other.0@[j]@,
            decreases self.0.len() - y,
        {
            if !(self.0[y] == other.0[y]) {
                proof {
                    assert(self@[y as int] == self.0@[y as int]@);
                    assert(other@[y as int] == other.0@[y as int]@);
                }
                return false;
            }
            y += 1;
        }
        proof {
            assert(self@ =~~= other@);
        }
        true
    }
}

impl vstd::std_specs::cmp::PartialEqSpecImpl for GameBoard {
    open spec fn obeys_eq_spec() -> bool {
        true
    }

    open spec fn eq_spec(&self, other: &Self) -> bool {
        self@ == other@
    }
}

/// Whether every cell of the line is Filled or Empty.
pub open spec fn line_determined(l: Seq<TileState>) -> bool {
    forall|i: int| 0 <= i < l.len() ==> !((#[trigger] l[i]) is Undetermined)
}

/// Two tile states conflict when one demands Filled and the other Empty.
pub open spec fn tiles_conflict(a: TileState, b: TileState) -> bool {
    (a is Filled && b is Empty) || (a is Empty && b is Filled)
}

/// The merge of two non-conflicting tile states: a determined state wins
/// over Undetermined.
pub open spec fn merge_tile(a: TileState, b: TileState) -> TileState {
    if a is Undetermined {
        b
    } else {
        a
    }
}

pub open spec fn lines_conflict(a: Seq<TileState>, b: Seq<TileState>) -> bool {
    exists|i: int| 0 <= i < a.len() && i < b.len() && tiles_conflict(a[i], b[i])
}

pub open spec fn merge_lines(a: Seq<TileState>, b: Seq<TileState>) -> Seq<TileState> {
    Seq::new(a.len(), |i: int| merge_tile(a[i], b[i]))
}

pub open spec fn boards_conflict(a: Seq<Seq<TileState>>, b: Seq<Seq<TileState>>) -> bool {
    exists|y: int| 0 <= y < a.len() && y < b.len() && lines_conflict(a[y], b[y])
}

pub open spec fn merge_board_views(a: Seq<Seq<TileState>>, b: Seq<Seq<TileState>>) -> Seq<
    Seq<TileState>,
> {
    Seq::new(a.len(), |y: int| merge_lines(a[y], b[y]))
}

/// Whether every cell of the board is Filled or Empty.
pub open spec fn board_determined(b: Seq<Seq<TileState>>) -> bool {
    forall|y: int| 0 <= y < b.len() ==> line_determined(#[trigger] b[y])
}

/// Every row of the board has width `w`.
pub open spec fn grid(b: Seq<Seq<TileState>>, w: int) -> bool {
    forall|y: int| 0 <= y < b.len() ==> (#[trigger] b[y]).len() == w
}

/// Column `x` of a board, read top to bottom.
pub open spec fn col_of(b: Seq<Seq<TileState>>, x: int) -> Seq<TileState> {
    Seq::new(b.len(), |y: int| b[y][x])
}

/// A board of `h` rows of `w` cells, all Undetermined.
pub open spec fn empty_board(w: int, h: int) -> Seq<Seq<TileState>> {
    Seq::new(h as nat, |y: int| Seq::new(w as nat, |x: int| TileState::Undetermined))
}

/// The lengths of the maximal runs of Filled cells from position `i` on,
/// where `cur` counts the Filled cells of the run currently in progress.
pub open spec fn runs_from(l: Seq<TileState>, i: int, cur: int) -> Seq<int>
    decreases l.len() - i,
{
    if i < 0 || i >= l.len() {
        if cur > 0 {
            seq![cur]
        } else {
            Seq::empty()
        }
    } else if l[i] is Filled {
        runs_from(l, i + 1, cur + 1)
    } else if cur > 0 {
        seq![cur] + runs_from(l, i + 1, 0)
    } else {
        runs_from(l, i + 1, 0)
    }
}

/// The lengths of the maximal runs of Filled cells of a whole line.
pub open spec fn runs(l: Seq<TileState>) -> Seq<int> {
    runs_from(l, 0, 0)
}

/// Run lengths as extracted from a line: a line without any Filled cell
/// reads as the single degenerate run `0`.
pub open spec fn chunks_repr(l: Seq<TileState>) -> Seq<int> {
    if runs(l).len() == 0 {
        seq![0int]
    } else {
        runs(l)
    }
}

/// A run-length list lifted to mathematical integers.
pub open spec fn rule_ints(r: Seq<usize>) -> Seq<int> {
    r.map_values(|v: usize| v as int)
}

/// A run in progress always shows up in the runs read from a line.
pub proof fn lemma_runs_from_head(l: Seq<TileState>, i: int, cur: int)
    requires
        cur > 0,
    ensures
        runs_from(l, i, cur).len() >= 1,
        runs_from(l, i, cur)[0] >= cur,
    decreases l.len() - i,
{
    if 0 <= i < l.len() && l[i] is Filled {
        lemma_runs_from_head(l, i + 1, cur + 1);
    }
}

/// Every run read from a line is at least one cell long.
pub proof fn lemma_runs_from_positive(l: Seq<TileState>, i: int, cur: int)
    requires
        cur >= 0,
    ensures
        forall|t: int|
            0 <= t < runs_from(l, i, cur).len() ==> #[trigger] runs_from(l, i, cur)[t] >= 1,
    decreases l.len() - i,
{
    if i < 0 || i >= l.len() {
    } else if l[i] is Filled {
        lemma_runs_from_positive(l, i + 1, cur + 1);
        assert forall|t: int|
            0 <= t < runs_from(l, i, cur).len() implies #[trigger] runs_from(l, i, cur)[t]
            >= 1 by {
            assert(runs_from(l, i, cur)[t] == runs_from(l, i + 1, cur + 1)[t]);
        }
    } else if cur > 0 {
        lemma_runs_from_positive(l, i + 1, 0);
        assert forall|t: int|
            0 <= t < runs_from(l, i, cur).len() implies #[trigger] runs_from(l, i, cur)[t]
            >= 1 by {
            if t > 0 {
                assert(runs_from(l, i, cur)[t] == runs_from(l, i + 1, 0)[t - 1]);
            }
        }
    } else {
        lemma_runs_from_positive(l, i + 1, 0);
        assert forall|t: int|
            0 <= t < runs_from(l, i, cur).len() implies #[trigger] runs_from(l, i, cur)[t]
            >= 1 by {
            assert(runs_from(l, i, cur)[t] == runs_from(l, i + 1, 0)[t]);
        }
    }
}

/// The runs of a prefix of a line are a prefix of the line's runs, except
/// that the last one may still be shorter.
pub proof fn lemma_runs_prefix(l: Seq<TileState>, n: int, i: int, cur: int)
    requires
        0 <= i <= n <= l.len(),
        cur >= 0,
    ensures
        ({
            let rp = runs_from(l.take(n), i, cur);
            let rl = runs_from(l, i, cur);
            &&& rp.len() <= rl.len()
            &&& forall|t: int| 0 <= t < rp.len() - 1 ==> rp[t] == rl[t]
            &&& rp.len() > 0 ==> rp[rp.len() - 1] <= rl[rp.len() - 1]
        }),
    decreases n - i,
{
    let p = l.take(n);
    let rp = runs_from(p, i, cur);
    let rl = runs_from(l, i, cur);
    if i == n {
        if cur > 0 {
            assert(rp =~= seq![cur]);
            lemma_runs_from_head(l, i, cur);
        } else {
            assert(rp =~= Seq::<int>::empty());
        }
    } else {
        assert(p[i] == l[i]);
        if l[i] is Filled {
            lemma_runs_prefix(l, n, i + 1, cur + 1);
        } else if cur > 0 {
            lemma_runs_prefix(l, n, i + 1, 0);
            let rp2 = runs_from(p, i + 1, 0);
            let rl2 = runs_from(l, i + 1, 0);
            assert(rp == seq![cur] + rp2);
            assert(rl == seq![cur] + rl2);
            assert forall|t: int| 0 <= t < rp.len() - 1 implies rp[t] == rl[t] by {
                if t > 0 {
                    assert(rp[t] == rp2[t - 1]);
                    assert(rl[t] == rl2[t - 1]);
                }
            }
            if rp.len() > 0 {
                if rp2.len() > 0 {
                    assert(rp[rp.len() - 1] == rp2[rp2.len() - 1]);
                    assert(rl[rp.len() - 1] == rl2[rp2.len() - 1]);
                } else {
                    assert(rp =~= seq![cur]);
                }
            }
        } else {
            lemma_runs_prefix(l, n, i + 1, 0);
        }
    }
}

/// One when the cell is Filled, zero otherwise.
pub open spec fn tile_filled(t: TileState) -> int {
    if t is Filled {
        1
    } else {
        0
    }
}

/// The number of Filled cells of the line from position `i` on.
pub open spec fn filled_from(l: Seq<TileState>, i: int) -> int
    decreases l.len() - i,
{
    if i < 0 || i >= l.len() {
        0
    } else {
        tile_filled(l[i]) + filled_from(l, i + 1)
    }
}

/// The number of Filled cells among the first `x` cells of the line.
pub open spec fn filled_upto(l: Seq<TileState>, x: int) -> int
    decreases x,
{
    if x <= 0 {
        0
    } else {
        filled_upto(l, x - 1) + tile_filled(l[x - 1])
    }
}

/// The total of a sequence of integers.
pub open spec fn sum_ints(s: Seq<int>) -> int
    decreases s.len(),
{
    if s.len() == 0 {
        0
    } else {
        s[0] + sum_ints(s.drop_first())
    }
}

/// The number of Filled cells of the whole board, counted row by row.
pub open spec fn rows_filled(b: Seq<Seq<TileState>>) -> int
    decreases b.len(),
{
    if b.len() == 0 {
        0
    } else {
        filled_from(b[0], 0) + rows_filled(b.drop_first())
    }
}

/// The number of Filled cells in columns `x..w`, counted column by column.
pub open spec fn cols_filled_from(b: Seq<Seq<TileState>>, x: int, w: int) -> int
    decreases w - x,
{
    if x >= w {
        0
    } else {
        filled_from(col_of(b, x), 0) + cols_filled_from(b, x + 1, w)
    }
}

/// The run lengths of a line add up to its count of Filled cells.
pub proof fn lemma_sum_runs_filled(l: Seq<TileState>, i: int, cur: int)
    requires
        cur >= 0,
    ensures
        sum_ints(runs_from(l, i, cur)) == cur + filled_from(l, i),
    decreases l.len() - i,
{
    if i < 0 || i >= l.len() {
        if cur > 0 {
            assert(seq![cur].drop_first() =~= Seq::<int>::empty());
            assert(sum_ints(seq![cur]) == cur + sum_ints(Seq::<int>::empty()));
        }
    } else if l[i] is Filled {
        lemma_sum_runs_filled(l, i + 1, cur + 1);
    } else if cur > 0 {
        lemma_sum_runs_filled(l, i + 1, 0);
        let tail = runs_from(l, i + 1, 0);
        assert((seq![cur] + tail)[0] == cur);
        assert((seq![cur] + tail).drop_first() =~= tail);
    } else {
        lemma_sum_runs_filled(l, i + 1, 0);
    }
}

/// Counting the first `x` cells and the rest covers the whole line.
proof fn lemma_filled_split(l: Seq<TileState>, x: int)
    requires
        0 <= x <= l.len(),
    ensures
        filled_upto(l, x) + filled_from(l, x) == filled_from(l, 0),
    decreases x,
{
    if x > 0 {
        lemma_filled_split(l, x - 1);
    }
}

/// Two lines that agree with one position shifted count alike.
proof fn lemma_filled_tail(l1: Seq<TileState>, l2: Seq<TileState>, i: int)
    requires
        i >= 0,
        l1.len() == l2.len() + 1,
        forall|k: int| 0 <= k < l2.len() ==> l1[k + 1] == l2[k],
    ensures
        filled_from(l1, i + 1) == filled_from(l2, i),
    decreases l2.len() - i,
{
    if i < l2.len() {
        assert(l1[i + 1] == l2[i]);
        lemma_filled_tail(l1, l2, i + 1);
    }
}

proof fn lemma_cols_filled_empty(b: Seq<Seq<TileState>>, x: int, w: int)
    requires
        b.len() == 0,
    ensures
        cols_filled_from(b, x, w) == 0,
    decreases w - x,
{
    if x < w {
        assert(col_of(b, x).len() == 0);
        lemma_cols_filled_empty(b, x + 1, w);
    }
}

/// Splitting off the first row of a column count leaves the rest's count.
proof fn lemma_cols_filled_head(b: Seq<Seq<TileState>>, x: int, w: int)
    requires
        b.len() >= 1,
        grid(b, w),
        0 <= x <= w,
        b[0].len() == w,
    ensures
        cols_filled_from(b, x, w) == filled_from(b[0], x) + cols_filled_from(b.drop_first(), x, w),
    decreases w - x,
{
    let t = b.drop_first();
    assert(forall|k: int| 0 <= k < t.len() ==> t[k] == b[k + 1]);
    if x < w {
        lemma_cols_filled_head(b, x + 1, w);
        let col = col_of(b, x);
        assert(col[0] == b[0][x]);
        assert(filled_from(col, 0) == tile_filled(b[0][x]) + filled_from(col, 1));
        lemma_filled_tail(col, col_of(t, x), 0);
        assert(filled_from(col, 1) == filled_from(col_of(t, x), 0)) by {
            assert forall|k: int| 0 <= k < col_of(t, x).len() implies col[k + 1] == col_of(
                t,
                x,
            )[k] by {
                assert(col[k + 1] == b[k + 1][x]);
                assert(col_of(t, x)[k] == t[k][x]);
            }
        }
    } else {
        assert(filled_from(b[0], w) == 0);
    }
}

/// Double counting: the board's Filled cells counted row by row equal the
/// same cells counted column by column.
pub proof fn lemma_double_count(b: Seq<Seq<TileState>>, w: int)
    requires
        w >= 0,
        grid(b, w),
    ensures
        rows_filled(b) == cols_filled_from(b, 0, w),
    decreases b.len(),
{
    if b.len() == 0 {
        lemma_cols_filled_empty(b, 0, w);
    } else {
        let t = b.drop_first();
        assert(forall|k: int| 0 <= k < t.len() ==> t[k] == b[k + 1]);
        assert(grid(t, w)) by {
            assert forall|y: int| 0 <= y < t.len() implies (#[trigger] t[y]).len() == w by {
                assert(t[y] == b[y + 1]);
            }
        }
        lemma_double_count(t, w);
        assert(b[0].len() == w);
        lemma_cols_filled_head(b, 0, w);
        lemma_filled_split(b[0], w);
        assert(filled_from(b[0], w) == 0);
        assert(filled_upto(b[0], w) == filled_from(b[0], 0));
    }
}

/// A line holds at most as many Filled cells as cells.
pub proof fn lemma_filled_bounds(l: Seq<TileState>, i: int)
    requires
        i >= 0,
    ensures
        0 <= filled_from(l, i) <= l.len() - i || filled_from(l, i) == 0,
        filled_from(l, i) >= 0,
        filled_from(l, i) <= l.len(),
    decreases l.len() - i,
{
    if 0 <= i < l.len() {
        lemma_filled_bounds(l, i + 1);
    }
}

/// Whether some segment covers position `i`.
pub open spec fn seg_covers(segs: Seq<Segment>, i: int) -> bool {
    exists|k: int|
        0 <= k < segs.len() && (#[trigger] segs[k]).index <= i < segs[k].index + segs[k].length
}

/// The line of width `width` whose Filled cells are exactly those covered
/// by a segment.
pub open spec fn line_of_segments(segs: Seq<Segment>, width: int) -> Seq<TileState> {
    Seq::new(
        width as nat,
        |i: int|
            if seg_covers(segs, i) {
                TileState::Filled
            } else {
                TileState::Empty
            },
    )
}

/// Merging is commutative: on boards of equal dimensions, conflict detection
/// is symmetric and the merged boards of both orders are equal.
pub proof fn lemma_merge_commutative(a: Seq<Seq<TileState>>, b: Seq<Seq<TileState>>)
    requires
        a.len() == b.len(),
        forall|y: int| 0 <= y < a.len() ==> (#[trigger] a[y]).len() == b[y].len(),
    ensures
        boards_conflict(a, b) == boards_conflict(b, a),
        !boards_conflict(a, b) ==> merge_board_views(a, b) == merge_board_views(b, a),
{
    assert forall|y: int| 0 <= y < a.len() implies lines_conflict(a[y], b[y]) == lines_conflict(
        b[y],
        a[y],
    ) by {
        if lines_conflict(a[y], b[y]) {
            let i = choose|i: int| 0 <= i < a[y].len() && i < b[y].len() && tiles_conflict(
                a[y][i],
                b[y][i],
            );
            assert(tiles_conflict(b[y][i], a[y][i]));
        }
        if lines_conflict(b[y], a[y]) {
            let i = choose|i: int| 0 <= i < b[y].len() && i < a[y].len() && tiles_conflict(
                b[y][i],
                a[y][i],
            );
            assert(tiles_conflict(a[y][i], b[y][i]));
        }
    }
    if !boards_conflict(a, b) {
        assert forall|y: int| 0 <= y < a.len() implies merge_lines(a[y], b[y]) == merge_lines(
            b[y],
            a[y],
        ) by {
            assert(!lines_conflict(a[y], b[y]));
            assert forall|x: int| 0 <= x < a[y].len() implies merge_tile(a[y][x], b[y][x])
                == merge_tile(b[y][x], a[y][x]) by {
                assert(!tiles_conflict(a[y][x], b[y][x]));
            }
            assert(merge_lines(a[y], b[y]) =~= merge_lines(b[y], a[y]));
        }
        assert(merge_board_views(a, b) =~~= merge_board_views(b, a));
    }
}

/// Merging is associative: when `a` merges with `b`, and that result merges
/// with `c`, then `b` merges with `c`, `a` merges with that, and both
/// groupings give the same board.
pub proof fn lemma_merge_associative(
    a: Seq<Seq<TileState>>,
    b: Seq<Seq<TileState>>,
    c: Seq<Seq<TileState>>,
)
    requires
        a.len() == b.len(),
        b.len() == c.len(),
        forall|y: int| 0 <= y < a.len() ==> (#[trigger] a[y]).len() == b[y].len(),
        forall|y: int| 0 <= y < b.len() ==> (#[trigger] b[y]).len() == c[y].len(),
        !boards_conflict(a, b),
        !boards_conflict(merge_board_views(a, b), c),
    ensures
        !boards_conflict(b, c),
        !boards_conflict(a, merge_board_views(b, c)),
        merge_board_views(merge_board_views(a, b), c) == merge_board_views(
            a,
            merge_board_views(b, c),
        ),
{
    let ab = merge_board_views(a, b);
    let bc = merge_board_views(b, c);
    assert forall|y: int| 0 <= y < b.len() implies !lines_conflict(b[y], c[y]) by {
        assert(!lines_conflict(a[y], b[y]));
        assert(!lines_conflict(ab[y], c[y]));
        assert forall|x: int| 0 <= x < b[y].len() implies !tiles_conflict(b[y][x], c[y][x]) by {
            assert(!tiles_conflict(a[y][x], b[y][x]));
            assert(ab[y][x] == merge_tile(a[y][x], b[y][x]));
            assert(!tiles_conflict(ab[y][x], c[y][x]));
        }
    }
    assert forall|y: int| 0 <= y < a.len() implies !lines_conflict(a[y], bc[y]) by {
        assert(!lines_conflict(a[y], b[y]));
        assert(!lines_conflict(ab[y], c[y]));
        assert forall|x: int| 0 <= x < a[y].len() implies !tiles_conflict(a[y][x], bc[y][x]) by {
            assert(!tiles_conflict(a[y][x], b[y][x]));
            assert(ab[y][x] == merge_tile(a[y][x], b[y][x]));
            assert(!tiles_conflict(ab[y][x], c[y][x]));
            assert(bc[y][x] == merge_tile(b[y][x], c[y][x]));
        }
    }
    assert forall|y: int| 0 <= y < a.len() implies merge_board_views(ab, c)[y]
        == merge_board_views(a, bc)[y] by {
        assert forall|x: int| 0 <= x < a[y].len() implies merge_tile(ab[y][x], c[y][x])
            == merge_tile(a[y][x], bc[y][x]) by {
            assert(ab[y][x] == merge_tile(a[y][x], b[y][x]));
            assert(bc[y][x] == merge_tile(b[y][x], c[y][x]));
        }
        assert(merge_board_views(ab, c)[y] =~= merge_board_views(a, bc)[y]);
    }
    assert(merge_board_views(ab, c) =~~= merge_board_views(a, bc));
}

/// Merging a board with itself is a no-op: it never conflicts and gives the
/// board back unchanged.
pub proof fn lemma_merge_idempotent(a: Seq<Seq<TileState>>)
    ensures
        !boards_conflict(a, a),
        merge_board_views(a, a) == a,
{
    assert forall|y: int| 0 <= y < a.len() implies merge_board_views(a, a)[y] == a[y] by {
        assert(merge_lines(a[y], a[y]) =~= a[y]);
    }
    assert(merge_board_views(a, a) =~~= a);
}

/// The character a cell renders as: `x` for Filled, a space for Empty, a
/// question mark for Undetermined.
pub open spec fn tile_char(t: TileState) -> char {
    match t {
        TileState::Filled => 'x',
        TileState::Empty => ' ',
        TileState::Undetermined => '?',
    }
}

pub open spec fn render_line_chars(l: Seq<TileState>) -> Seq<char> {
    l.map_values(|t: TileState| tile_char(t))
}

/// A board rendered as text: one line per row, rows joined by line breaks.
pub open spec fn render_board_chars(b: Seq<Seq<TileState>>) -> Seq<char> {
    join_with(b.map_values(|l: Seq<TileState>| render_line_chars(l)), '\n')
}

/// The character one cell renders as.
fn tile_str(t: TileState) -> (r: &'static str)
    ensures
        r@ == seq![tile_char(t)],
{
    let r = match t {
        TileState::Filled => "x",
        TileState::Empty => " ",
        TileState::Undetermined => "?",
    };
    proof {
        reveal_strlit("x");
        reveal_strlit(" ");
        reveal_strlit("?");
        assert(r@ =~= seq![tile_char(t)]);
    }
    r
}

/// Whether some segment of `segments` covers position `i`.
fn segments_cover(segments: &Vec<Segment>, i: usize) -> (b: bool)
    ensures
        b == seg_covers(segments@, i as int),
{
    let mut k: usize = 0;
    while k < segments.len()
        invariant
            0 <= k <= segments.len(),
            forall|j: int|
                0 <= j < k ==> !((#[trigger] segments@[j]).index <= i
                    < segments@[j].index + segments@[j].length),
        decreases segments.len() - k,
    {
        let seg = segments[k];
        if i >= seg.index && i - seg.index < seg.length {
            return true;
        }
        k += 1;
    }
    false
}

/// A vector of `width` Undetermined tiles.
fn undetermined_tiles(width: usize) -> (r: Vec<TileState>)
    ensures
        r@ == Seq::new(width as nat, |x: int| TileState::Undetermined),
{
    let mut v: Vec<TileState> = Vec::new();
    let mut i: usize = 0;
    while i < width
        invariant
            0 <= i <= width,
            v@.len() == i,
            forall|j: int| 0 <= j < i ==> v@[j] == TileState::Undetermined,
        decreases width - i,
    {
        v.push(TileState::Undetermined);
        i += 1;
    }
    proof {
        assert(v@ =~= Seq::new(width as nat, |x: int| TileState::Undetermined));
    }
    v
}

impl GameBoardRow {
    /// A row of `width` Undetermined cells.
    pub fn new(width: usize) -> (r: Self)
        ensures
            r@.len() == width,
            forall|x: int| 0 <= x < width ==> r@[x] == TileState::Undetermined,
    {
        GameBoardRow(undetermined_tiles(width))
    }

    /// Overwrite one cell of the row.
    pub fn set_tile(&mut self, index: usize, tile: TileState)
        requires
            index < old(self)@.len(),
        ensures
            final(self)@ == old(self)@.update(index as int, tile),
    {
        self.0[index] = tile;
    }

    /// Materialize a full line from placed segments: every covered cell is
    /// Filled and every other cell Empty.
    pub fn build_from_segments(segments: Vec<Segment>, width: usize) -> (r: Result<
        Self,
        PicrossError,
    >)
        ensures
            r matches Ok(row) && row@ == line_of_segments(segments@, width as int),
    {
        let mut tiles: Vec<TileState> = Vec::new();
        let mut i: usize = 0;
        while i < width
            invariant
                0 <= i <= width,
                tiles@.len() == i,
                forall|j: int| 0 <= j < i ==> tiles@[j] == line_of_segments(segments@, width as int)[j],
            decreases width - i,
        {
            if segments_cover(&segments, i) {
                tiles.push(TileState::Filled);
            } else {
                tiles.push(TileState::Empty);
            }
            i += 1;
        }
        proof {
            assert(tiles@ =~= line_of_segments(segments@, width as int));
        }
        Ok(GameBoardRow(tiles))
    }

    /// A copy of the row with the same cells.
    pub fn duplicate(&self) -> (r: Self)
        ensures
            r@ == self@,
    {
        let mut tiles: Vec<TileState> = Vec::new();
        let mut i: usize = 0;
        while i < self.0.len()
            invariant
                0 <= i <= self.0.len(),
                tiles@.len() == i,
                forall|j: int| 0 <= j < i ==> tiles@[j] == self.0@[j],
            decreases self.0.len() - i,
        {
            tiles.push(self.0[i]);
            i += 1;
        }
        proof {
            assert(tiles@ =~= self@);
        }
        GameBoardRow(tiles)
    }
}

impl GameBoard {
    /// An all-Undetermined board of the given dimensions.
    pub fn new(width: usize, height: usize) -> (r: Self)
        ensures
            r@ == empty_board(width as int, height as int),
    {
        let mut rows: Vec<GameBoardRow> = Vec::new();
        let mut y: usize = 0;
        while y < height
            invariant
                0 <= y <= height,
                rows@.len() == y,
                forall|j: int|
                    0 <= j < y ==> (#[trigger] rows@[j])@ == Seq::new(
                        width as nat,
                        |x: int| TileState::Undetermined,
                    ),
            decreases height - y,
        {
            rows.push(GameBoardRow::new(width));
            proof {
                assert(rows@[y as int]@ =~= Seq::new(
                    width as nat,
                    |x: int| TileState::Undetermined,
                ));
            }
            y += 1;
        }
        let board = GameBoard(rows);
        proof {
            assert(board@ =~~= empty_board(width as int, height as int));
        }
        board
    }

    /// The number of rows.
    pub fn height(&self) -> (r: usize)
        ensures
            r == self@.len(),
    {
        self.0.len()
    }

    /// The width of the first row, or zero for a board without rows.
    pub fn width(&self) -> (r: usize)
        ensures
            r == if self@.len() == 0 {
                0int
            } else {
                self@[0].len() as int
            },
    {
        if self.0.len() == 0 {
            0
        } else {
            self.0[0].0.len()
        }
    }

    /// A copy of the board with the same cells.
    pub fn duplicate(&self) -> (r: Self)
        ensures
            r@ == self@,
    {
        let mut rows: Vec<GameBoardRow> = Vec::new();
        let mut y: usize = 0;
        while y < self.0.len()
            invariant
                0 <= y <= self.0.len(),
                rows@.len() == y,
                forall|j: int| 0 <= j < y ==> (#[trigger] rows@[j])@ == self.0@[j]@,
            decreases self.0.len() - y,
        {
            rows.push(self.0[y].duplicate());
            y += 1;
        }
        let board = GameBoard(rows);
        proof {
            assert(board@ =~~= self@);
        }
        board
    }

    /// Overwrite the cell at column `x` of row `y`, failing if the
    /// coordinates lie outside the board.
    pub fn set_tile(&mut self, x: usize, y: usize, state: TileState) -> (r: Result<
        (),
        PicrossError,
    >)
        ensures
            y < old(self)@.len() && x < old(self)@[y as int].len() ==> r is Ok && final(self)@
                == old(self)@.update(y as int, old(self)@[y as int].update(x as int, state)),
            !(y < old(self)@.len() && x < old(self)@[y as int].len()) ==> r
                == Result::<(), PicrossError>::Err(PicrossError::OutOfBounds) && final(self)@
                == old(self)@,
    {
        if y < self.0.len() {
            let row: &mut GameBoardRow = &mut self.0[y];
            if x < row.0.len() {
                row.set_tile(x, state);
                proof {
                    assert(self@ =~~= old(self)@.update(
                        y as int,
                        old(self)@[y as int].update(x as int, state),
                    ));
                }
                Ok(())
            } else {
                Err(PicrossError::OutOfBounds)
            }
        } else {
            Err(PicrossError::OutOfBounds)
        }
    }

    /// Combine two boards of identical dimensions cell by cell: a determined
    /// cell wins over an Undetermined one, and a cell demanded both Filled
    /// and Empty is a contradiction.
    pub fn merge_board(&self, board: Self) -> (r: Result<Self, PicrossError>)
        requires
            self@.len() == board@.len(),
            forall|y: int| 0 <= y < self@.len() ==> (#[trigger] self@[y]).len() == board@[y].len(),
        ensures
            match r {
                Ok(m) => !boards_conflict(self@, board@) && m@ == merge_board_views(self@, board@),
                Err(e) => e == PicrossError::Contradiction && boards_conflict(self@, board@),
            },
    {
        let mut rows: Vec<GameBoardRow> = Vec::new();
        let mut y: usize = 0;
        while y < self.0.len()
            invariant
                0 <= y <= self.0.len(),
                self@.len() == board@.len(),
                self@.len() == self.0@.len(),
                forall|j: int|
                    0 <= j < self@.len() ==> (#[trigger] self@[j]).len() == board@[j].len(),
                rows@.len() == y,
                forall|j: int| 0 <= j < y ==> !lines_conflict(self@[j], board@[j]),
                forall|j: int|
                    0 <= j < y ==> (#[trigger] rows@[j])@ == merge_lines(self@[j], board@[j]),
            decreases self.0.len() - y,
        {
            proof {
                assert(self@[y as int] == self.0@[y as int]@);
                assert(board@[y as int] == board.0@[y as int]@);
            }
            let row_a = &self.0[y];
            let row_b = &board.0[y];
            let mut merged: Vec<TileState> = Vec::new();
            let mut x: usize = 0;
            while x < row_a.0.len()
                invariant
                    0 <= x <= row_a.0.len(),
                    0 <= y < self@.len(),
                    self@.len() == board@.len(),
                    self@[y as int] == row_a.0@,
                    board@[y as int] == row_b.0@,
                    row_a.0@.len() == row_b.0@.len(),
                    merged@.len() == x,
                    forall|j: int| 0 <= j < x ==> !tiles_conflict(row_a.0@[j], row_b.0@[j]),
                    forall|j: int|
                        0 <= j < x ==> merged@[j] == merge_tile(row_a.0@[j], row_b.0@[j]),
                decreases row_a.0.len() - x,
            {
                let a = row_a.0[x];
                let b = row_b.0[x];
                match (a, b) {
                    (TileState::Filled, TileState::Empty) => {
                        proof {
                            assert(tiles_conflict(self@[y as int][x as int], board@[y as int][x as int]));
                            assert(lines_conflict(self@[y as int], board@[y as int]));
                            assert(boards_conflict(self@, board@));
                        }
                        return Err(PicrossError::Contradiction);
                    },
                    (TileState::Empty, TileState::Filled) => {
                        proof {
                            assert(tiles_conflict(self@[y as int][x as int], board@[y as int][x as int]));
                            assert(lines_conflict(self@[y as int], board@[y as int]));
                            assert(boards_conflict(self@, board@));
                        }
                        return Err(PicrossError::Contradiction);
                    },
                    (TileState::Undetermined, other) => merged.push(other),
                    (determined, _) => merged.push(determined),
                }
                x += 1;
            }
            proof {
                assert(merged@ =~= merge_lines(self@[y as int], board@[y as int]));
            }
            rows.push(GameBoardRow(merged));
            y += 1;
        }
        let out = GameBoard(rows);
        proof {
            assert(out@ =~~= merge_board_views(self@, board@));
        }
        Ok(out)
    }

    /// The run lengths of column `index`, scanned top to bottom; a column
    /// without Filled cells reads as the single run `0`. Fails if the column
    /// index lies outside some row or if the column has Undetermined cells.
    pub fn get_column_chunks(&self, index: usize) -> (r: Result<Vec<usize>, PicrossError>)
        ensures
            match r {
                Ok(c) => (forall|y: int| 0 <= y < self@.len() ==> index < (#[trigger] self@[y]).len())
                    && line_determined(col_of(self@, index as int)) && rule_ints(c@) == chunks_repr(
                    col_of(self@, index as int),
                ),
                Err(e) => {
                    ||| (e == PicrossError::OutOfBounds && !(forall|y: int|
                        0 <= y < self@.len() ==> index < (#[trigger] self@[y]).len()))
                    ||| (e == PicrossError::UndeterminedLine && !line_determined(
                        col_of(self@, index as int),
                    ))
                },
            },
    {
        let ghost col = col_of(self@, index as int);
        let mut y: usize = 0;
        while y < self.0.len()
            invariant
                0 <= y <= self.0.len(),
                forall|j: int| 0 <= j < y ==> index < (#[trigger] self@[j]).len(),
            decreases self.0.len() - y,
        {
            proof {
                assert(self@[y as int] == self.0@[y as int]@);
            }
            if index >= self.0[y].0.len() {
                return Err(PicrossError::OutOfBounds);
            }
            y += 1;
        }
        let mut chunks: Vec<usize> = Vec::new();
        let mut count: usize = 0;
        let mut y: usize = 0;
        proof {
            assert(runs(col) == rule_ints(chunks@) + runs_from(col, 0, 0));
        }
        while y < self.0.len()
            invariant
                0 <= y <= self.0.len(),
                col == col_of(self@, index as int),
                col.len() == self.0@.len(),
                self@.len() == self.0@.len(),
                forall|j: int| 0 <= j < self@.len() ==> index < (#[trigger] self@[j]).len(),
                count <= y,
                forall|j: int| 0 <= j < y ==> !((#[trigger] col[j]) is Undetermined),
                runs(col) == rule_ints(chunks@) + runs_from(col, y as int, count as int),
            decreases self.0.len() - y,
        {
            proof {
                assert(self@[y as int] == self.0@[y as int]@);
                assert(col[y as int] == self@[y as int][index as int]);
            }
            let state = self.0[y].0[index];
            match state {
                TileState::Filled => {
                    proof {
                        assert(runs_from(col, y as int, count as int) == runs_from(
                            col,
                            y as int + 1,
                            count as int + 1,
                        ));
                    }
                    count += 1;
                },
                TileState::Empty => {
                    if count > 0 {
                        proof {
                            assert(runs_from(col, y as int, count as int) == seq![count as int]
                                + runs_from(col, y as int + 1, 0));
                            assert(rule_ints(chunks@.push(count)) =~= rule_ints(chunks@)
                                + seq![count as int]);
                            assert((rule_ints(chunks@) + seq![count as int]) + runs_from(
                                col,
                                y as int + 1,
                                0,
                            ) =~= rule_ints(chunks@) + (seq![count as int] + runs_from(
                                col,
                                y as int + 1,
                                0,
                            )));
                        }
                        chunks.push(count);
                        count = 0;
                    } else {
                        proof {
                            assert(runs_from(col, y as int, 0) == runs_from(col, y as int + 1, 0));
                        }
                    }
                },
                TileState::Undetermined => {
                    return Err(PicrossError::UndeterminedLine);
                },
            }
            y += 1;
        }
        if count > 0 {
            proof {
                assert(runs_from(col, col.len() as int, count as int) =~= seq![count as int]);
                assert(rule_ints(chunks@.push(count)) =~= rule_ints(chunks@) + seq![count as int]);
            }
            chunks.push(count);
        } else {
            proof {
                assert(runs_from(col, col.len() as int, 0) =~= Seq::<int>::empty());
                assert(rule_ints(chunks@) + Seq::<int>::empty() =~= rule_ints(chunks@));
            }
        }
        if chunks.len() == 0 {
            let mut zero: Vec<usize> = Vec::new();
            zero.push(0);
            proof {
                assert(rule_ints(zero@) =~= seq![0int]);
            }
            Ok(zero)
        } else {
            proof {
                assert(runs(col).len() > 0);
            }
            Ok(chunks)
        }
    }

    /// Whether every cell of the board is Filled or Empty.
    pub fn is_fully_determined(&self) -> (r: bool)
        ensures
            r == board_determined(self@),
    {
        let mut y: usize = 0;
        while y < self.0.len()
            invariant
                0 <= y <= self.0.len(),
                self@.len() == self.0@.len(),
                forall|j: int| 0 <= j < y ==> line_determined(#[trigger] self@[j]),
            decreases self.0.len() - y,
        {
            proof {
                assert(self@[y as int] == self.0@[y as int]@);
            }
            let row = &self.0[y];
            let mut x: usize = 0;
            while x < row.0.len()
                invariant
                    0 <= x <= row.0@.len(),
                    0 <= y < self@.len(),
                    row@ == self@[y as int],
                    forall|j: int| 0 <= j < x ==> !((#[trigger] row.0@[j]) is Undetermined),
                decreases row.0@.len() - x,
            {
                if matches!(row.0[x], TileState::Undetermined) {
                    proof {
                        assert(row.0@[x as int] is Undetermined);
                        assert(!line_determined(self@[y as int]));
                        assert(!board_determined(self@));
                    }
                    return false;
                }
                x += 1;
            }
            y += 1;
        }
        true
    }

    /// Render the board as text: one line per row, `x` for Filled, a space
    /// for Empty and `?` for Undetermined.
    pub fn render(&self) -> (r: String)
        ensures
            r@ == render_board_chars(self@),
    {
        let ghost g = |l: Seq<TileState>| render_line_chars(l);
        let mut out = String::new();
        let mut y: usize = 0;
        proof {
            assert(self@.take(0).map_values(g) =~= Seq::<Seq<char>>::empty());
        }
        while y < self.0.len()
            invariant
                0 <= y <= self.0.len(),
                self@.len() == self.0@.len(),
                g == (|l: Seq<TileState>| render_line_chars(l)),
                out@ == join_with(self@.take(y as int).map_values(g), '\n'),
            decreases self.0.len() - y,
        {
            proof {
                assert(self@[y as int] == self.0@[y as int]@);
                assert(self@.take(y + 1).map_values(g) =~= self@.take(y as int).map_values(g).push(
                    g(self@[y as int]),
                ));
                crate::text::lemma_join_push(
                    self@.take(y as int).map_values(g),
                    g(self@[y as int]),
                    '\n',
                );
            }
            if y > 0 {
                out.append("\n");
                proof {
                    reveal_strlit("\n");
                    assert("\n"@ =~= seq!['\n']);
                }
            } else {
                proof {
                    assert(self@.take(0int).map_values(g).len() == 0);
                }
            }
            let ghost line_base = out@;
            let row = &self.0[y];
            let mut x: usize = 0;
            while x < row.0.len()
                invariant
                    0 <= x <= row.0@.len(),
                    out@ == line_base + row.0@.take(x as int).map_values(
                        |t: TileState| tile_char(t),
                    ),
                decreases row.0@.len() - x,
            {
                proof {
                    assert(row.0@.take(x + 1).map_values(|t: TileState| tile_char(t))
                        =~= row.0@.take(x as int).map_values(|t: TileState| tile_char(t)).push(
                        tile_char(row.0@[x as int]),
                    ));
                    assert((line_base + row.0@.take(x as int).map_values(
                        |t: TileState| tile_char(t),
                    )) + seq![tile_char(row.0@[x as int])] =~= line_base + row.0@.take(x + 1)
                        .map_values(|t: TileState| tile_char(t)));
                }
                out.append(tile_str(row.0[x]));
                x += 1;
            }
            proof {
                assert(row.0@.take(row.0@.len() as int) =~= row.0@);
                assert(render_line_chars(self@[y as int]) == row.0@.map_values(
                    |t: TileState| tile_char(t),
                ));
                if y > 0 {
                    assert(out@ == join_with(self@.take(y as int).map_values(g), '\n')
                        + seq!['\n'] + render_line_chars(self@[y as int]));
                } else {
                    assert(out@ == render_line_chars(self@[0]));
                }
            }
            y += 1;
        }
        proof {
            assert(self@.take(self@.len() as int) =~= self@);
        }
        out
    }

    /// Column `x` of the board, read top to bottom.
    pub fn get_column(&self, column_index: usize) -> (r: Vec<TileState>)
        requires
            forall|y: int| 0 <= y < self@.len() ==> column_index < (#[trigger] self@[y]).len(),
        ensures
            r@ == col_of(self@, column_index as int),
    {
        let mut col: Vec<TileState> = Vec::new();
        let mut y: usize = 0;
        while y < self.0.len()
            invariant
                0 <= y <= self.0.len(),
                forall|j: int| 0 <= j < self@.len() ==> column_index < (#[trigger] self@[j]).len(),
                col@.len() == y,
                forall|j: int| 0 <= j < y ==> col@[j] == self.0@[j]@[column_index as int],
            decreases self.0.len() - y,
        {
            proof {
                assert(self@[y as int] == self.0@[y as int]@);
            }
            col.push(self.0[y].0[column_index]);
            y += 1;
        }
        proof {
            assert(col@ =~= col_of(self@, column_index as int));
        }
        col
    }
}

} // verus!
