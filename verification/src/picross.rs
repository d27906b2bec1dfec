use vstd::prelude::*;

use crate::error::PicrossError;
use crate::game_board::{
    chunks_repr, col_of, cols_filled_from, empty_board, filled_from, grid, lemma_double_count,
    lemma_filled_bounds, lemma_sum_runs_filled, line_determined, rows_filled, rule_ints, sum_ints,
    GameBoard, GameBoardRow, TileState,
};
use crate::iterators::{
    all_lines, compatible_candidates, consensus_line, sum_rule, PicrossLineIter,
};
use crate::text::{
    dec_chars, digits_val, is_digit, is_space, join_with, lemma_split_parts_len,
    parse_usize_chars, parse_usize_spec, parts_len_total, split_by, split_chars, trim_chars,
    trim_spec,
};

pub mod picross_solver_trait;
pub mod picross_solver_v1;
pub mod picross_solver_v2;
pub mod picross_solver_v3;

verus! {

/// The ordered run lengths of one row or column; the single run `0` denotes
/// a line without filled cells.
#[derive(Debug)]
pub struct LineRule(pub Vec<usize>);

/// One rule per line along an axis, in index order.
#[derive(Debug)]
pub struct AxisRules(pub Vec<LineRule>);

/// A puzzle: the run constraints of every row and of every column.
#[derive(Debug)]
pub struct PicrossGame {
    pub rows: AxisRules,
    pub columns: AxisRules,
}

impl View for LineRule {
    type V = Seq<usize>;

    open spec fn view(&self) -> Seq<usize> {
        self.0@
    }
}

impl View for AxisRules {
    type V = Seq<Seq<usize>>;

    open spec fn view(&self) -> Seq<Seq<usize>> {
        self.0@.map_values(|r: LineRule| r@)
    }
}

impl PartialEq for LineRule {
    fn eq(&self, other: &Self) -> (r: bool) {
        if self.0.len() != other.0.len() {
            return false;
        }
        let mut i: usize = 0;
        while i < self.0.len()
            invariant
                0 <= i <= self.0.len(),
                self.0.len() == other.0.len(),
                forall|j: int| 0 <= j < i ==> self.0@[j] == other.0@[j],
            decreases self.0.len() - i,
        {
            if self.0[i] != other.0[i] {
                return false;
            }
            i += 1;
        }
        proof {
            assert(self.0@ =~= other.0@);
        }
        true
    }
}

impl vstd::std_specs::cmp::PartialEqSpecImpl for LineRule {
    open spec fn obeys_eq_spec() -> bool {
        true
    }

    open spec fn eq_spec(&self, other: &Self) -> bool {
        self@ == other@
    }
}

impl PartialEq for AxisRules {
    fn eq(&self, other: &Self) -> (r: bool) {
        if self.0.len() != other.0.len() {
            proof {
                assert(self@.len() == self.0@.len());
                assert(other@.len() == other.0@.len());
            }
            return false;
        }
        let mut i: usize = 0;
        while i < self.0.len()
            invariant
                0 <= i <= self.0.len(),
                self.0.len() == other.0.len(),
                forall|j: int| 0 <= j < i ==> self.0@[j]@ == other.0@[j]@,
            decreases self.0.len() - i,
        {
            if !(self.0[i] == other.0[i]) {
                proof {
                    assert(self@[i as int] == self.0@[i as int]@);
                    assert(other@[i as int] == other.0@[i as int]@);
                }
                return false;
            }
            i += 1;
        }
        proof {
            assert(self@ =~~= other@);
        }
        true
    }
}

impl vstd::std_specs::cmp::PartialEqSpecImpl for AxisRules {
    open spec fn obeys_eq_spec() -> bool {
        true
    }

    open spec fn eq_spec(&self, other: &Self) -> bool {
        self@ == other@
    }
}

impl PartialEq for PicrossGame {
    fn eq(&self, other: &Self) -> (r: bool) {
        self.rows == other.rows && self.columns == other.columns
    }
}

impl vstd::std_specs::cmp::PartialEqSpecImpl for PicrossGame {
    open spec fn obeys_eq_spec() -> bool {
        true
    }

    open spec fn eq_spec(&self, other: &Self) -> bool {
        self.rows@ == other.rows@ && self.columns@ == other.columns@
    }
}

// ---------------------------------------------------------------------------
// Well-formedness
// ---------------------------------------------------------------------------

/// A meaningful run list: non-empty, and either every run positive or the
/// single degenerate run `0`.
pub open spec fn rule_wf(r: Seq<usize>) -> bool {
    r.len() > 0 && (r == seq![0usize] || forall|i: int| 0 <= i < r.len() ==> r[i] > 0)
}

pub open spec fn axis_wf(a: Seq<Seq<usize>>) -> bool {
    a.len() > 0 && forall|i: int| 0 <= i < a.len() ==> rule_wf(#[trigger] a[i])
}

/// The total of all run lengths along an axis.
pub open spec fn sum_axis(a: Seq<Seq<usize>>) -> int
    decreases a.len(),
{
    if a.len() == 0 {
        0
    } else {
        sum_rule(a[0]) + sum_axis(a.drop_first())
    }
}

impl PicrossGame {
    /// A well-formed puzzle: meaningful rules on both axes, and the same
    /// number of filled cells demanded by the rows as by the columns.
    pub open spec fn wf(&self) -> bool {
        axis_wf(self.rows@) && axis_wf(self.columns@) && sum_axis(self.rows@) == sum_axis(
            self.columns@,
        )
    }
}

proof fn lemma_sum_rule_push(s: Seq<usize>, v: usize)
    ensures
        sum_rule(s.push(v)) == sum_rule(s) + v,
    decreases s.len(),
{
    assert(s.push(v)[0] == if s.len() == 0 { v } else { s[0] });
    if s.len() == 0 {
        assert(s.push(v).drop_first() =~= Seq::<usize>::empty());
        assert(sum_rule(Seq::<usize>::empty()) == 0);
    } else {
        assert(s.push(v).drop_first() =~= s.drop_first().push(v));
        lemma_sum_rule_push(s.drop_first(), v);
    }
}

proof fn lemma_sum_axis_push(a: Seq<Seq<usize>>, r: Seq<usize>)
    ensures
        sum_axis(a.push(r)) == sum_axis(a) + sum_rule(r),
    decreases a.len(),
{
    assert(a.push(r)[0] == if a.len() == 0 { r } else { a[0] });
    if a.len() == 0 {
        assert(a.push(r).drop_first() =~= Seq::<Seq<usize>>::empty());
        assert(sum_axis(Seq::<Seq<usize>>::empty()) == 0);
    } else {
        assert(a.push(r).drop_first() =~= a.drop_first().push(r));
        lemma_sum_axis_push(a.drop_first(), r);
    }
}

proof fn lemma_sum_rule_nonneg(s: Seq<usize>)
    ensures
        sum_rule(s) >= 0,
    decreases s.len(),
{
    if s.len() > 0 {
        lemma_sum_rule_nonneg(s.drop_first());
    }
}

proof fn lemma_sum_rule_prefix(s: Seq<usize>, j: int)
    requires
        0 <= j <= s.len(),
    ensures
        0 <= sum_rule(s.take(j)) <= sum_rule(s),
    decreases s.len() - j,
{
    lemma_sum_rule_nonneg(s.take(j));
    if j == s.len() {
        assert(s.take(j) =~= s);
    } else {
        lemma_sum_rule_prefix(s, j + 1);
        assert(s.take(j + 1) =~= s.take(j).push(s[j]));
        lemma_sum_rule_push(s.take(j), s[j]);
    }
}

proof fn lemma_sum_axis_prefix(a: Seq<Seq<usize>>, i: int)
    requires
        0 <= i <= a.len(),
    ensures
        0 <= sum_axis(a.take(i)) <= sum_axis(a),
    decreases a.len() - i,
{
    if i == a.len() {
        assert(a.take(i) =~= a);
        lemma_sum_axis_nonneg(a.take(i));
    } else {
        lemma_sum_axis_nonneg(a.take(i));
        lemma_sum_axis_prefix(a, i + 1);
        assert(a.take(i + 1) =~= a.take(i).push(a[i]));
        lemma_sum_axis_push(a.take(i), a[i]);
        lemma_sum_rule_nonneg(a[i]);
    }
}

proof fn lemma_sum_axis_nonneg(a: Seq<Seq<usize>>)
    ensures
        sum_axis(a) >= 0,
    decreases a.len(),
{
    if a.len() > 0 {
        lemma_sum_rule_nonneg(a[0]);
        lemma_sum_axis_nonneg(a.drop_first());
    }
}

// ---------------------------------------------------------------------------
// Parsing
// ---------------------------------------------------------------------------

/// What parsing one rule string yields: the values of its space-separated
/// tokens after trimming, or nothing if any token fails to parse.
pub open spec fn parse_rule_spec(s: Seq<char>) -> Option<Seq<usize>> {
    let toks = split_by(trim_spec(s), ' ');
    if exists|i: int| 0 <= i < toks.len() && parse_usize_spec(#[trigger] toks[i]) is None {
        None
    } else {
        Some(Seq::new(toks.len(), |i: int| parse_usize_spec(toks[i]).unwrap()))
    }
}

/// What parsing an axis string yields: one rule per comma-separated part.
pub open spec fn parse_axis_spec(s: Seq<char>) -> Option<Seq<Seq<usize>>> {
    let parts = split_by(trim_spec(s), ',');
    if exists|i: int| 0 <= i < parts.len() && parse_rule_spec(#[trigger] parts[i]) is None {
        None
    } else {
        Some(Seq::new(parts.len(), |i: int| parse_rule_spec(parts[i]).unwrap()))
    }
}

fn parse_rule_chars(v: Vec<char>) -> (r: Result<LineRule, PicrossError>)
    ensures
        match r {
            Ok(rule) => parse_rule_spec(v@) == Some(rule@),
            Err(e) => e == PicrossError::ParseError && parse_rule_spec(v@) is None,
        },
{
    let trimmed = trim_chars(&v);
    let toks = split_chars(&trimmed, ' ');
    let ghost toks_spec = split_by(trim_spec(v@), ' ');
    proof {
        assert(toks@.map_values(|p: Vec<char>| p@) == toks_spec);
    }
    let mut vals: Vec<usize> = Vec::new();
    let mut i: usize = 0;
    while i < toks.len()
        invariant
            0 <= i <= toks@.len(),
            toks_spec == split_by(trim_spec(v@), ' '),
            toks@.map_values(|p: Vec<char>| p@) == toks_spec,
            vals@.len() == i,
            forall|j: int|
                0 <= j < i ==> parse_usize_spec(toks_spec[j]) == Some(#[trigger] vals@[j]),
        decreases toks@.len() - i,
    {
        proof {
            assert(toks@[i as int]@ == toks_spec[i as int]);
        }
        match parse_usize_chars(&toks[i]) {
            Some(val) => {
                vals.push(val);
            },
            None => {
                proof {
                    assert(parse_usize_spec(toks_spec[i as int]) is None);
                    assert(0 <= (i as int) && (i as int) < toks_spec.len());
                    assert(exists|j: int|
                        0 <= j < toks_spec.len() && parse_usize_spec(
                            #[trigger] toks_spec[j],
                        ) is None);
                    assert(parse_rule_spec(v@) is None);
                }
                return Err(PicrossError::ParseError);
            },
        }
        i += 1;
    }
    proof {
        assert forall|i: int|
            0 <= i < toks_spec.len() implies parse_usize_spec(#[trigger] toks_spec[i]) is Some by {
            assert(parse_usize_spec(toks_spec[i]) == Some(vals@[i]));
        }
        assert(vals@ =~= Seq::new(toks_spec.len(), |i: int| parse_usize_spec(toks_spec[i]).unwrap()));
    }
    Ok(LineRule(vals))
}

impl LineRule {
    /// Parse a rule from a string of space-separated run lengths.
    pub fn from_str(s: &str) -> (r: Result<Self, PicrossError>)
        ensures
            match r {
                Ok(rule) => parse_rule_spec(s@) == Some(rule@),
                Err(e) => e == PicrossError::ParseError && parse_rule_spec(s@) is None,
            },
    {
        parse_rule_chars(crate::text::chars_of(s))
    }
}

impl AxisRules {
    /// Parse the rules of one axis from comma-separated rule strings.
    pub fn from_str(s: &str) -> (r: Result<Self, PicrossError>)
        ensures
            match r {
                Ok(axis) => parse_axis_spec(s@) == Some(axis@),
                Err(e) => e == PicrossError::ParseError && parse_axis_spec(s@) is None,
            },
    {
        let chars = crate::text::chars_of(s);
        let trimmed = trim_chars(&chars);
        let parts = split_chars(&trimmed, ',');
        let ghost parts_spec = split_by(trim_spec(s@), ',');
        proof {
            assert(parts@.map_values(|p: Vec<char>| p@) == parts_spec);
        }
        let mut rules: Vec<LineRule> = Vec::new();
        let mut i: usize = 0;
        while i < parts.len()
            invariant
                0 <= i <= parts@.len(),
                parts_spec == split_by(trim_spec(s@), ','),
                parts@.map_values(|p: Vec<char>| p@) == parts_spec,
                rules@.len() == i,
                forall|j: int|
                    0 <= j < i ==> parse_rule_spec(parts_spec[j]) == Some(
                        (#[trigger] rules@[j])@,
                    ),
            decreases parts@.len() - i,
        {
            proof {
                assert(parts@[i as int]@ == parts_spec[i as int]);
            }
            let part = crate::text::copy_chars(&parts[i]);
            match parse_rule_chars(part) {
                Ok(rule) => {
                    rules.push(rule);
                },
                Err(_) => {
                    proof {
                        assert(parse_rule_spec(parts_spec[i as int]) is None);
                        assert(0 <= (i as int) && (i as int) < parts_spec.len());
                        assert(exists|j: int|
                            0 <= j < parts_spec.len() && parse_rule_spec(
                                #[trigger] parts_spec[j],
                            ) is None);
                        assert(parse_axis_spec(s@) is None);
                    }
                    return Err(PicrossError::ParseError);
                },
            }
            i += 1;
        }
        let axis = AxisRules(rules);
        proof {
            assert forall|i: int|
                0 <= i < parts_spec.len() implies parse_rule_spec(
                #[trigger] parts_spec[i],
            ) is Some by {
                assert(parse_rule_spec(parts_spec[i]) == Some(rules@[i]@));
            }
            assert(axis@ =~= Seq::new(
                parts_spec.len(),
                |i: int| parse_rule_spec(parts_spec[i]).unwrap(),
            ));
        }
        Ok(axis)
    }
}

/// Whether every rule of the axis is meaningful (`rule_wf`).
fn check_axis_wf(rules: &Vec<LineRule>) -> (r: bool)
    ensures
        r == (forall|i: int| 0 <= i < rules@.len() ==> rule_wf((#[trigger] rules@[i])@)),
{
    let mut i: usize = 0;
    while i < rules.len()
        invariant
            0 <= i <= rules@.len(),
            forall|j: int| 0 <= j < i ==> rule_wf((#[trigger] rules@[j])@),
        decreases rules@.len() - i,
    {
        let rule = &rules[i];
        proof {
            assert(rule@ == rules@[i as int]@);
        }
        if rule.0.len() == 0 {
            proof {
                assert(!rule_wf(rules@[i as int]@));
            }
            return false;
        }
        if !(rule.0.len() == 1 && rule.0[0] == 0) {
            let mut j: usize = 0;
            while j < rule.0.len()
                invariant
                    0 <= j <= rule.0@.len(),
                    0 <= i < rules@.len(),
                    rule@ == rules@[i as int]@,
                    rule.0@.len() != 1 || rule.0@[0] != 0,
                    forall|t: int| 0 <= t < j ==> rule.0@[t] > 0,
                decreases rule.0@.len() - j,
            {
                if rule.0[j] == 0 {
                    proof {
                        assert(seq![0usize].len() == 1 && seq![0usize][0] == 0usize);
                        assert(rule@[j as int] == 0);
                        assert(rule@ != seq![0usize]);
                        assert(!rule_wf(rules@[i as int]@));
                    }
                    return false;
                }
                j += 1;
            }
        } else {
            proof {
                assert(rule@ =~= seq![0usize]);
            }
        }
        i += 1;
    }
    true
}

/// The total of the run lengths of an axis, or nothing when it exceeds the
/// machine range.
fn sum_axis_exec(rules: &Vec<LineRule>) -> (r: Option<usize>)
    ensures
        ({
            let a = rules@.map_values(|r: LineRule| r@);
            match r {
                Some(s) => s == sum_axis(a),
                None => sum_axis(a) > usize::MAX,
            }
        }),
{
    let ghost a = rules@.map_values(|r: LineRule| r@);
    let mut acc: usize = 0;
    let mut i: usize = 0;
    proof {
        assert(a.take(0) =~= Seq::<Seq<usize>>::empty());
    }
    while i < rules.len()
        invariant
            0 <= i <= rules@.len(),
            a == rules@.map_values(|r: LineRule| r@),
            a.len() == rules@.len(),
            acc == sum_axis(a.take(i as int)),
        decreases rules@.len() - i,
    {
        let rule = &rules[i];
        proof {
            assert(a[i as int] == rule@);
            assert(rule@.take(0) =~= Seq::<usize>::empty());
        }
        let mut j: usize = 0;
        let mut racc: usize = 0;
        while j < rule.0.len()
            invariant
                0 <= j <= rule.0@.len(),
                0 <= i < a.len(),
                a == rules@.map_values(|r: LineRule| r@),
                a[i as int] == rule@,
                rule@ == rule.0@,
                acc == sum_axis(a.take(i as int)),
                racc == sum_rule(rule@.take(j as int)),
            decreases rule.0@.len() - j,
        {
            proof {
                assert(rule@.take(j + 1) =~= rule@.take(j as int).push(rule@[j as int]));
                lemma_sum_rule_push(rule@.take(j as int), rule@[j as int]);
            }
            racc = match racc.checked_add(rule.0[j]) {
                Some(x) => x,
                None => {
                    proof {
                        lemma_sum_rule_prefix(rule@, j + 1);
                        lemma_sum_axis_prefix(a, i as int);
                        assert(a.take(i + 1) =~= a.take(i as int).push(a[i as int]));
                        lemma_sum_axis_push(a.take(i as int), a[i as int]);
                        lemma_sum_axis_prefix(a, i + 1);
                    }
                    return None;
                },
            };
            j += 1;
        }
        proof {
            assert(rule@.take(rule@.len() as int) =~= rule@);
            assert(a.take(i + 1) =~= a.take(i as int).push(a[i as int]));
            lemma_sum_axis_push(a.take(i as int), a[i as int]);
        }
        acc = match acc.checked_add(racc) {
            Some(x) => x,
            None => {
                proof {
                    lemma_sum_axis_prefix(a, i + 1);
                }
                return None;
            },
        };
        i += 1;
    }
    proof {
        assert(a.take(a.len() as int) =~= a);
    }
    Some(acc)
}

impl PicrossGame {
    /// The number of columns.
    pub fn width(&self) -> (r: usize)
        ensures
            r == self.columns@.len(),
    {
        proof {
            assert(self.columns@.len() == self.columns.0@.len());
        }
        self.columns.0.len()
    }

    /// The number of rows.
    pub fn height(&self) -> (r: usize)
        ensures
            r == self.rows@.len(),
    {
        proof {
            assert(self.rows@.len() == self.rows.0@.len());
        }
        self.rows.0.len()
    }

    /// Assemble a puzzle from parsed axes, rejecting meaningless run lists
    /// and rows whose filled-cell total differs from the columns'.
    fn build(rows: AxisRules, columns: AxisRules) -> (r: Result<Self, PicrossError>)
        ensures
            match r {
                Ok(g) => g.rows@ == rows@ && g.columns@ == columns@ && g.wf() && sum_axis(g.rows@)
                    <= usize::MAX,
                Err(e) => {
                    ||| (e == PicrossError::ParseError && (!axis_wf(rows@) || !axis_wf(columns@)))
                    ||| (e == PicrossError::DimensionMismatch && axis_wf(rows@) && axis_wf(columns@)
                        && (sum_axis(rows@) != sum_axis(columns@) || sum_axis(rows@) > usize::MAX
                        || sum_axis(columns@) > usize::MAX))
                },
            },
    {
        proof {
            assert(rows@.len() == rows.0@.len());
            assert(columns@.len() == columns.0@.len());
        }
        if rows.0.len() == 0 || columns.0.len() == 0 {
            return Err(PicrossError::ParseError);
        }
        let rows_ok = check_axis_wf(&rows.0);
        let cols_ok = check_axis_wf(&columns.0);
        proof {
            assert forall|i: int| 0 <= i < rows@.len() implies #[trigger] rows@[i]
                == rows.0@[i]@ by {}
            assert forall|i: int| 0 <= i < columns@.len() implies #[trigger] columns@[i]
                == columns.0@[i]@ by {}
            if !rows_ok {
                let i = choose|i: int|
                    0 <= i < rows.0@.len() && !rule_wf((#[trigger] rows.0@[i])@);
                assert(rows@[i] == rows.0@[i]@);
                assert(!axis_wf(rows@));
            }
            if !cols_ok {
                let i = choose|i: int|
                    0 <= i < columns.0@.len() && !rule_wf((#[trigger] columns.0@[i])@);
                assert(columns@[i] == columns.0@[i]@);
                assert(!axis_wf(columns@));
            }
            if rows_ok {
                assert(axis_wf(rows@));
            }
            if cols_ok {
                assert(axis_wf(columns@));
            }
            assert(rows.0@.map_values(|r: LineRule| r@) =~= rows@);
            assert(columns.0@.map_values(|r: LineRule| r@) =~= columns@);
        }
        if !rows_ok || !cols_ok {
            return Err(PicrossError::ParseError);
        }
        let row_sum = sum_axis_exec(&rows.0);
        let col_sum = sum_axis_exec(&columns.0);
        match (row_sum, col_sum) {
            (Some(rs), Some(cs)) => {
                if rs != cs {
                    Err(PicrossError::DimensionMismatch)
                } else {
                    Ok(PicrossGame { rows, columns })
                }
            },
            _ => Err(PicrossError::DimensionMismatch),
        }
    }

    /// Build a puzzle from a row-axis string and a column-axis string,
    /// failing when either fails to parse, when a run list is meaningless,
    /// or when the two axes demand different filled-cell totals.
    pub fn from_rules(row_rules: &str, column_rules: &str) -> (r: Result<Self, PicrossError>)
        ensures
            match r {
                Ok(g) => parse_axis_spec(row_rules@) == Some(g.rows@) && parse_axis_spec(
                    column_rules@,
                ) == Some(g.columns@) && g.wf() && sum_axis(g.rows@) <= usize::MAX,
                Err(e) => {
                    ||| (e == PicrossError::ParseError && (parse_axis_spec(row_rules@) is None
                        || parse_axis_spec(column_rules@) is None || !axis_wf(
                        parse_axis_spec(row_rules@).unwrap(),
                    ) || !axis_wf(parse_axis_spec(column_rules@).unwrap())))
                    ||| (e == PicrossError::DimensionMismatch && parse_axis_spec(row_rules@) is Some
                        && parse_axis_spec(column_rules@) is Some && {
                        let rs = sum_axis(parse_axis_spec(row_rules@).unwrap());
                        let cs = sum_axis(parse_axis_spec(column_rules@).unwrap());
                        rs != cs || rs > usize::MAX || cs > usize::MAX
                    })
                },
            },
    {
        let rows = match AxisRules::from_str(row_rules) {
            Ok(a) => a,
            Err(_) => {
                return Err(PicrossError::ParseError);
            },
        };
        let columns = match AxisRules::from_str(column_rules) {
            Ok(a) => a,
            Err(_) => {
                return Err(PicrossError::ParseError);
            },
        };
        Self::build(rows, columns)
    }
}

/// Whether the puzzle has at most one solution.
pub open spec fn has_unique_solution(rows: Seq<Seq<usize>>, cols: Seq<Seq<usize>>) -> bool {
    forall|b1: Seq<Seq<TileState>>, b2: Seq<Seq<TileState>>|
        #![trigger is_solution(rows, cols, b1), is_solution(rows, cols, b2)]
        is_solution(rows, cols, b1) && is_solution(rows, cols, b2) ==> b1 == b2
}

/// Agreement of the solving strategies: every solver's `solve` promises that
/// a Complete frame holds a board satisfying `is_solution`; so on a puzzle
/// with a unique solution, any two solvers that complete — backtracking
/// search, fixed-point propagation or worklist propagation — return the
/// same final board.
pub proof fn lemma_solvers_agree(
    rows: Seq<Seq<usize>>,
    cols: Seq<Seq<usize>>,
    b1: Seq<Seq<TileState>>,
    b2: Seq<Seq<TileState>>,
)
    requires
        has_unique_solution(rows, cols),
        is_solution(rows, cols, b1),
        is_solution(rows, cols, b2),
    ensures
        b1 == b2,
{
}

proof fn lemma_sum_rule_ints(rule: Seq<usize>)
    ensures
        sum_ints(rule_ints(rule)) == sum_rule(rule),
    decreases rule.len(),
{
    if rule.len() == 0 {
        assert(rule_ints(rule) =~= Seq::<int>::empty());
    } else {
        assert(rule_ints(rule)[0] == rule[0] as int);
        assert(rule_ints(rule).drop_first() =~= rule_ints(rule.drop_first()));
        lemma_sum_rule_ints(rule.drop_first());
    }
}

/// A rule read off a line totals exactly the line's Filled cells.
proof fn lemma_rule_filled(rule: Seq<usize>, l: Seq<TileState>)
    requires
        rule_ints(rule) == chunks_repr(l),
    ensures
        sum_rule(rule) == filled_from(l, 0),
{
    lemma_sum_rule_ints(rule);
    lemma_sum_runs_filled(l, 0, 0);
    if crate::game_board::runs(l).len() == 0 {
        assert(chunks_repr(l) == seq![0int]);
        assert(seq![0int].drop_first() =~= Seq::<int>::empty());
        assert(sum_ints(seq![0int]) == seq![0int][0] + sum_ints(seq![0int].drop_first()));
        assert(sum_ints(Seq::<int>::empty()) == 0);
    }
}

/// A rule read off a line is always meaningful.
proof fn lemma_chunks_rule_wf(rule: Seq<usize>, l: Seq<TileState>)
    requires
        rule_ints(rule) == chunks_repr(l),
    ensures
        rule_wf(rule),
{
    if crate::game_board::runs(l).len() == 0 {
        assert(rule_ints(rule) == seq![0int]);
        assert(rule.len() == 1);
        assert(rule_ints(rule)[0] == rule[0] as int);
        assert(rule[0] == 0);
        assert(rule =~= seq![0usize]);
    } else {
        assert(rule_ints(rule) == crate::game_board::runs(l));
        crate::game_board::lemma_runs_from_positive(l, 0, 0);
        assert forall|t: int| 0 <= t < rule.len() implies rule[t] > 0 by {
            assert(rule_ints(rule)[t] == rule[t] as int);
            assert(crate::game_board::runs(l)[t] >= 1);
        }
    }
}

/// An axis of rules read off the rows totals the board's Filled cells.
proof fn lemma_axis_rows_filled(a: Seq<Seq<usize>>, b: Seq<Seq<TileState>>)
    requires
        a.len() == b.len(),
        forall|y: int| 0 <= y < a.len() ==> rule_ints(#[trigger] a[y]) == chunks_repr(b[y]),
    ensures
        sum_axis(a) == rows_filled(b),
    decreases a.len(),
{
    if a.len() > 0 {
        lemma_rule_filled(a[0], b[0]);
        assert(forall|y: int| 0 <= y < a.drop_first().len() ==> a.drop_first()[y] == a[y + 1]);
        assert(forall|y: int| 0 <= y < b.drop_first().len() ==> b.drop_first()[y] == b[y + 1]);
        lemma_axis_rows_filled(a.drop_first(), b.drop_first());
    }
}

/// An axis of rules read off the columns from `k` on totals those columns'
/// Filled cells.
proof fn lemma_axis_cols_filled(a: Seq<Seq<usize>>, b: Seq<Seq<TileState>>, k: int)
    requires
        forall|t: int|
            0 <= t < a.len() ==> rule_ints(#[trigger] a[t]) == chunks_repr(col_of(b, k + t)),
    ensures
        sum_axis(a) == cols_filled_from(b, k, k + a.len()),
    decreases a.len(),
{
    if a.len() > 0 {
        lemma_rule_filled(a[0], col_of(b, k));
        let a2 = a.drop_first();
        assert(forall|t: int| 0 <= t < a2.len() ==> a2[t] == a[t + 1]);
        assert forall|t: int| 0 <= t < a2.len() implies rule_ints(#[trigger] a2[t]) == chunks_repr(
            col_of(b, k + 1 + t),
        ) by {
            assert(a2[t] == a[t + 1]);
            assert(rule_ints(a[t + 1]) == chunks_repr(col_of(b, k + (t + 1))));
        }
        lemma_axis_cols_filled(a2, b, k + 1);
    }
}

/// A text image holds at least as many characters as marks.
proof fn lemma_rows_filled_le_parts(lines: Seq<Seq<char>>)
    ensures
        rows_filled(marks_grid(lines)) <= parts_len_total(lines),
        rows_filled(marks_grid(lines)) >= 0,
    decreases lines.len(),
{
    let g = marks_grid(lines);
    if lines.len() == 0 {
    } else {
        assert(g[0] == marks_line(lines[0]));
        lemma_filled_bounds(g[0], 0);
        assert(g.drop_first() =~= marks_grid(lines.drop_first()));
        lemma_rows_filled_le_parts(lines.drop_first());
        assert(rows_filled(g) == filled_from(g[0], 0) + rows_filled(g.drop_first()));
        assert(parts_len_total(lines) == lines[0].len() + parts_len_total(lines.drop_first()));
    }
}

// ---------------------------------------------------------------------------
// Text images
// ---------------------------------------------------------------------------

/// How one character of a rendered text image reads as a cell: `x` or `X`
/// is Filled, anything else Empty.
pub open spec fn mark_tile(c: char) -> TileState {
    if c == 'x' || c == 'X' {
        TileState::Filled
    } else {
        TileState::Empty
    }
}

/// A rendered line read as cells.
pub open spec fn marks_line(s: Seq<char>) -> Seq<TileState> {
    s.map_values(|c: char| mark_tile(c))
}

/// The characters a rendered text image may hold.
pub open spec fn render_mark_ok(c: char) -> bool {
    c == 'x' || c == 'X' || c == ' '
}

/// A well-shaped text image: at least one line, at least one column, all
/// lines of one width, and only marks and spaces.
pub open spec fn render_lines_ok(lines: Seq<Seq<char>>) -> bool {
    &&& lines.len() >= 1
    &&& lines[0].len() >= 1
    &&& forall|i: int| 0 <= i < lines.len() ==> (#[trigger] lines[i]).len() == lines[0].len()
    &&& forall|i: int, j: int|
        #![trigger lines[i][j]]
        0 <= i < lines.len() && 0 <= j < lines[i].len() ==> render_mark_ok(lines[i][j])
}

/// A text image read as a grid of cells.
pub open spec fn marks_grid(lines: Seq<Seq<char>>) -> Seq<Seq<TileState>> {
    lines.map_values(|l: Seq<char>| marks_line(l))
}

/// The run lengths of the marks of one rendered line, as extracted: a line
/// without marks reads as the single run `0`.
fn rule_from_marks(v: &Vec<char>) -> (r: LineRule)
    ensures
        rule_ints(r@) == chunks_repr(marks_line(v@)),
{
    let ghost line = marks_line(v@);
    proof {
        assert(line.len() == v@.len());
    }
    let mut chunks: Vec<usize> = Vec::new();
    let mut count: usize = 0;
    let mut i: usize = 0;
    proof {
        assert(crate::game_board::runs(line) == rule_ints(chunks@) + crate::game_board::runs_from(
            line,
            0,
            0,
        ));
    }
    while i < v.len()
        invariant
            0 <= i <= v@.len(),
            line == marks_line(v@),
            line.len() == v@.len(),
            count <= i,
            crate::game_board::runs(line) == rule_ints(chunks@) + crate::game_board::runs_from(
                line,
                i as int,
                count as int,
            ),
        decreases v@.len() - i,
    {
        let c = v[i];
        proof {
            assert(line[i as int] == mark_tile(v@[i as int]));
        }
        if c == 'x' || c == 'X' {
            proof {
                assert(line[i as int] is Filled);
                assert(crate::game_board::runs_from(line, i as int, count as int)
                    == crate::game_board::runs_from(line, i as int + 1, count as int + 1));
            }
            count += 1;
        } else {
            proof {
                assert(!(line[i as int] is Filled));
            }
            if count > 0 {
                proof {
                    assert(crate::game_board::runs_from(line, i as int, count as int)
                        == seq![count as int] + crate::game_board::runs_from(line, i as int + 1, 0));
                    assert(rule_ints(chunks@.push(count)) =~= rule_ints(chunks@)
                        + seq![count as int]);
                    assert((rule_ints(chunks@) + seq![count as int])
                        + crate::game_board::runs_from(line, i as int + 1, 0) =~= rule_ints(
                        chunks@,
                    ) + (seq![count as int] + crate::game_board::runs_from(line, i as int + 1, 0)));
                }
                chunks.push(count);
                count = 0;
            } else {
                proof {
                    assert(crate::game_board::runs_from(line, i as int, 0)
                        == crate::game_board::runs_from(line, i as int + 1, 0));
                }
            }
        }
        i += 1;
    }
    if count > 0 {
        proof {
            assert(crate::game_board::runs_from(line, line.len() as int, count as int)
                =~= seq![count as int]);
            assert(rule_ints(chunks@.push(count)) =~= rule_ints(chunks@) + seq![count as int]);
        }
        chunks.push(count);
    } else {
        proof {
            assert(crate::game_board::runs_from(line, line.len() as int, 0) =~= Seq::<int>::empty());
            assert(rule_ints(chunks@) + Seq::<int>::empty() =~= rule_ints(chunks@));
        }
    }
    if chunks.len() == 0 {
        let mut zero: Vec<usize> = Vec::new();
        zero.push(0);
        proof {
            assert(rule_ints(zero@) =~= seq![0int]);
        }
        LineRule(zero)
    } else {
        proof {
            assert(crate::game_board::runs(line).len() > 0);
        }
        LineRule(chunks)
    }
}

impl LineRule {
    /// The rule of one rendered text-image line: the run lengths of its
    /// maximal groups of `x` or `X` marks, or the single run `0` for a line
    /// without marks.
    pub fn from_render_line(input: &str) -> (r: Self)
        requires
            forall|j: int| 0 <= j < input@.len() ==> render_mark_ok(#[trigger] input@[j]),
        ensures
            rule_ints(r@) == chunks_repr(marks_line(input@)),
    {
        let chars = crate::text::chars_of(input);
        rule_from_marks(&chars)
    }
}

impl PicrossGame {
    /// Read a puzzle from a rendered text image: each line's marks give a
    /// row rule and each character column's marks a column rule. Fails with
    /// a parse error when the image is empty, ragged or holds a character
    /// other than a mark or a space, and with a dimension mismatch when the
    /// derived axes disagree — which a well-shaped image never produces.
    pub fn from_text_render(input: &str) -> (r: Result<Self, PicrossError>)
        ensures
            ({
                let lines = split_by(input@, '\n');
                let grid0 = marks_grid(lines);
                match r {
                    Ok(g) => render_lines_ok(lines) && g.rows@.len() == lines.len() && (forall|
                        i: int,
                    |
                        0 <= i < lines.len() ==> rule_ints(#[trigger] g.rows@[i]) == chunks_repr(
                            grid0[i],
                        )) && g.columns@.len() == lines[0].len() && (forall|x: int|
                        0 <= x < lines[0].len() ==> rule_ints(#[trigger] g.columns@[x])
                            == chunks_repr(col_of(grid0, x))) && g.wf() && sum_axis(g.rows@)
                        <= usize::MAX,
                    Err(e) => e == PicrossError::ParseError || (e == PicrossError::DimensionMismatch
                        && render_lines_ok(lines)),
                }
            }),
            !render_lines_ok(split_by(input@, '\n')) ==> r == Result::<
                Self,
                PicrossError,
            >::Err(PicrossError::ParseError),
            // A well-shaped image always yields a puzzle: its row and
            // column totals both count the image's marks.
            render_lines_ok(split_by(input@, '\n')) ==> r is Ok,
    {
        let chars = crate::text::chars_of(input);
        let lines = split_chars(&chars, '\n');
        let ghost lines_spec = split_by(input@, '\n');
        let ghost grid0 = marks_grid(lines_spec);
        proof {
            assert(lines@.map_values(|p: Vec<char>| p@) == lines_spec);
        }
        let w0 = lines[0].len();
        if w0 == 0 {
            proof {
                assert(lines_spec[0].len() == 0);
                assert(!render_lines_ok(lines_spec));
            }
            return Err(PicrossError::ParseError);
        }
        // Validate the shape and characters of the image.
        let mut i: usize = 0;
        while i < lines.len()
            invariant
                0 <= i <= lines@.len(),
                lines_spec == split_by(input@, '\n'),
                lines@.map_values(|p: Vec<char>| p@) == lines_spec,
                lines@.len() >= 1,
                w0 == lines_spec[0].len(),
                w0 >= 1,
                forall|t: int| 0 <= t < i ==> (#[trigger] lines_spec[t]).len() == w0,
                forall|t: int, j: int|
                    #![trigger lines_spec[t][j]]
                    0 <= t < i && 0 <= j < lines_spec[t].len() ==> render_mark_ok(
                        lines_spec[t][j],
                    ),
            decreases lines@.len() - i,
        {
            proof {
                assert(lines@[i as int]@ == lines_spec[i as int]);
            }
            if lines[i].len() != w0 {
                proof {
                    assert(!render_lines_ok(lines_spec));
                }
                return Err(PicrossError::ParseError);
            }
            let mut j: usize = 0;
            while j < w0
                invariant
                    0 <= j <= w0,
                    0 <= i < lines@.len(),
                    lines_spec == split_by(input@, '\n'),
                    lines@.map_values(|p: Vec<char>| p@) == lines_spec,
                    lines@[i as int]@ == lines_spec[i as int],
                    lines_spec[i as int].len() == w0,
                    forall|t: int|
                        0 <= t < j ==> render_mark_ok(#[trigger] lines_spec[i as int][t]),
                decreases w0 - j,
            {
                let c = lines[i][j];
                let ok = c == 'x' || c == 'X' || c == ' ';
                if !ok {
                    proof {
                        assert(!render_mark_ok(lines_spec[i as int][j as int]));
                        assert(!render_lines_ok(lines_spec));
                    }
                    return Err(PicrossError::ParseError);
                }
                j += 1;
            }
            i += 1;
        }
        proof {
            assert(render_lines_ok(lines_spec));
        }
        // Row rules from the lines, column rules from the character columns.
        let mut row_rules: Vec<LineRule> = Vec::new();
        let mut i: usize = 0;
        while i < lines.len()
            invariant
                0 <= i <= lines@.len(),
                lines_spec == split_by(input@, '\n'),
                lines@.map_values(|p: Vec<char>| p@) == lines_spec,
                grid0 == marks_grid(lines_spec),
                row_rules@.len() == i,
                forall|t: int|
                    0 <= t < i ==> rule_ints((#[trigger] row_rules@[t])@) == chunks_repr(grid0[t]),
            decreases lines@.len() - i,
        {
            proof {
                assert(lines@[i as int]@ == lines_spec[i as int]);
                assert(grid0[i as int] == marks_line(lines_spec[i as int]));
            }
            row_rules.push(rule_from_marks(&lines[i]));
            i += 1;
        }
        let mut col_rules: Vec<LineRule> = Vec::new();
        let mut x: usize = 0;
        while x < w0
            invariant
                0 <= x <= w0,
                lines_spec == split_by(input@, '\n'),
                lines@.map_values(|p: Vec<char>| p@) == lines_spec,
                grid0 == marks_grid(lines_spec),
                lines@.len() >= 1,
                w0 == lines_spec[0].len(),
                render_lines_ok(lines_spec),
                col_rules@.len() == x,
                forall|t: int|
                    0 <= t < x ==> rule_ints((#[trigger] col_rules@[t])@) == chunks_repr(
                        col_of(grid0, t),
                    ),
            decreases w0 - x,
        {
            let mut col_chars: Vec<char> = Vec::new();
            let mut y: usize = 0;
            while y < lines.len()
                invariant
                    0 <= y <= lines@.len(),
                    0 <= x < w0,
                    lines_spec == split_by(input@, '\n'),
                    lines@.map_values(|p: Vec<char>| p@) == lines_spec,
                    w0 == lines_spec[0].len(),
                    render_lines_ok(lines_spec),
                    col_chars@.len() == y,
                    forall|t: int| 0 <= t < y ==> col_chars@[t] == lines_spec[t][x as int],
                decreases lines@.len() - y,
            {
                proof {
                    assert(lines@[y as int]@ == lines_spec[y as int]);
                    assert(lines_spec[y as int].len() == w0);
                }
                col_chars.push(lines[y][x]);
                y += 1;
            }
            let rule = rule_from_marks(&col_chars);
            proof {
                assert(marks_line(col_chars@) =~= col_of(grid0, x as int)) by {
                    assert forall|t: int| 0 <= t < lines_spec.len() implies marks_line(
                        col_chars@,
                    )[t] == col_of(grid0, x as int)[t] by {
                        assert(marks_line(col_chars@)[t] == mark_tile(col_chars@[t]));
                        assert(grid0[t] == marks_line(lines_spec[t]));
                        assert(col_of(grid0, x as int)[t] == grid0[t][x as int]);
                        assert(lines_spec[t].len() == w0);
                    }
                }
            }
            col_rules.push(rule);
            x += 1;
        }
        let rows = AxisRules(row_rules);
        let columns = AxisRules(col_rules);
        proof {
            assert(rows@.len() == lines_spec.len());
            assert(forall|t: int| 0 <= t < rows@.len() ==> #[trigger] rows@[t] == row_rules@[t]@);
            assert(columns@.len() == w0);
            assert(forall|t: int|
                0 <= t < columns@.len() ==> #[trigger] columns@[t] == col_rules@[t]@);
            // On a well-shaped image, both axes are meaningful and total the
            // image's marks, so the final validation cannot fail.
            let w0i = w0 as int;
            assert forall|t: int| 0 <= t < rows@.len() implies rule_wf(#[trigger] rows@[t]) by {
                assert(rows@[t] == row_rules@[t]@);
                assert(rule_ints(rows@[t]) == chunks_repr(grid0[t]));
                lemma_chunks_rule_wf(rows@[t], grid0[t]);
            }
            assert forall|t: int| 0 <= t < columns@.len() implies rule_wf(
                #[trigger] columns@[t],
            ) by {
                assert(columns@[t] == col_rules@[t]@);
                assert(rule_ints(columns@[t]) == chunks_repr(col_of(grid0, t)));
                lemma_chunks_rule_wf(columns@[t], col_of(grid0, t));
            }
            assert(axis_wf(rows@));
            assert(axis_wf(columns@));
            assert(grid0.len() == lines_spec.len());
            assert(grid(grid0, w0i)) by {
                assert forall|y: int| 0 <= y < grid0.len() implies (#[trigger] grid0[y]).len()
                    == w0i by {
                    assert(grid0[y] == marks_line(lines_spec[y]));
                    assert(lines_spec[y].len() == lines_spec[0].len());
                }
            }
            assert forall|y: int| 0 <= y < rows@.len() implies rule_ints(#[trigger] rows@[y])
                == chunks_repr(grid0[y]) by {
                assert(rows@[y] == row_rules@[y]@);
            }
            lemma_axis_rows_filled(rows@, grid0);
            assert forall|t: int| 0 <= t < columns@.len() implies rule_ints(
                #[trigger] columns@[t],
            ) == chunks_repr(col_of(grid0, 0 + t)) by {
                assert(columns@[t] == col_rules@[t]@);
            }
            lemma_axis_cols_filled(columns@, grid0, 0);
            lemma_double_count(grid0, w0i);
            assert(sum_axis(rows@) == sum_axis(columns@));
            lemma_rows_filled_le_parts(lines_spec);
            lemma_split_parts_len(input@, '\n');
            assert(chars@.len() <= usize::MAX) by {
                assert(chars.len() == chars@.len());
            }
            assert(input@.len() == chars@.len());
            assert(sum_axis(rows@) <= usize::MAX);
        }
        let result = Self::build(rows, columns);
        proof {
            if result is Err {
                assert(false);
            }
        }
        result
    }
}

// ---------------------------------------------------------------------------
// Rules files
// ---------------------------------------------------------------------------

/// The line that separates the row rules from the column rules.
pub open spec fn divider_chars() -> Seq<char> {
    seq!['-', '-', '-', '-', '-']
}

/// The index of the first line that is the divider, or -1 when none is.
pub open spec fn divider_index(lines: Seq<Seq<char>>) -> int
    decreases lines.len(),
{
    if lines.len() == 0 {
        -1
    } else if trim_spec(lines[0]) == divider_chars() {
        0
    } else if divider_index(lines.drop_first()) < 0 {
        -1
    } else {
        divider_index(lines.drop_first()) + 1
    }
}

proof fn lemma_divider_index_bounds(lines: Seq<Seq<char>>)
    ensures
        divider_index(lines) >= 0 ==> divider_index(lines) < lines.len() && trim_spec(
            lines[divider_index(lines)],
        ) == divider_chars(),
    decreases lines.len(),
{
    if lines.len() > 0 && trim_spec(lines[0]) != divider_chars() {
        lemma_divider_index_bounds(lines.drop_first());
        if divider_index(lines) >= 0 {
            assert(lines.drop_first()[divider_index(lines) - 1] == lines[divider_index(lines)]);
        }
    }
}

proof fn lemma_divider_index_at(lines: Seq<Seq<char>>, k: int)
    requires
        0 <= k < lines.len(),
        forall|i: int| 0 <= i < k ==> trim_spec(#[trigger] lines[i]) != divider_chars(),
        trim_spec(lines[k]) == divider_chars(),
    ensures
        divider_index(lines) == k,
    decreases k,
{
    if k == 0 {
    } else {
        let rest = lines.drop_first();
        assert(forall|i: int| 0 <= i < rest.len() ==> rest[i] == lines[i + 1]);
        lemma_divider_index_at(rest, k - 1);
    }
}

/// What parsing one block of rule lines yields: one rule per line.
pub open spec fn parse_lines_spec(lines: Seq<Seq<char>>) -> Option<Seq<Seq<usize>>> {
    if exists|i: int| 0 <= i < lines.len() && parse_rule_spec(#[trigger] lines[i]) is None {
        None
    } else {
        Some(Seq::new(lines.len(), |i: int| parse_rule_spec(lines[i]).unwrap()))
    }
}

/// What parsing a whole rules file yields: the lines before the first
/// divider line give the row rules, the lines after it the column rules.
pub open spec fn parse_file_spec(s: Seq<char>) -> Option<(Seq<Seq<usize>>, Seq<Seq<usize>>)> {
    let lines = split_by(trim_spec(s), '\n');
    let k = divider_index(lines);
    if k < 0 {
        None
    } else {
        match (parse_lines_spec(lines.take(k)), parse_lines_spec(lines.skip(k + 1))) {
            (Some(rows), Some(cols)) => Some((rows, cols)),
            _ => None,
        }
    }
}

/// One rule as it stands in a rules file: run lengths joined by single
/// spaces.
pub open spec fn render_rule(r: Seq<usize>) -> Seq<char> {
    join_with(r.map_values(|v: usize| dec_chars(v as int)), ' ')
}

/// One axis as it stands in a rules file: one rule per line.
pub open spec fn render_axis_lines(a: Seq<Seq<usize>>) -> Seq<char> {
    join_with(a.map_values(|r: Seq<usize>| render_rule(r)), '\n')
}

/// A whole rules file: the row rules, the divider line, the column rules.
pub open spec fn render_rules_file(rows: Seq<Seq<usize>>, cols: Seq<Seq<usize>>) -> Seq<char> {
    render_axis_lines(rows) + seq!['\n'] + divider_chars() + seq!['\n'] + render_axis_lines(cols)
}

/// The shape of a rendered rule: non-empty, digits and spaces only, a digit
/// at either end, unchanged by trimming, never the divider line, and parsed
/// back into the rule it renders.
proof fn lemma_render_rule_props(r: Seq<usize>)
    requires
        r.len() >= 1,
    ensures
        render_rule(r).len() >= 1,
        forall|i: int|
            0 <= i < render_rule(r).len() ==> is_digit(#[trigger] render_rule(r)[i])
                || render_rule(r)[i] == ' ',
        is_digit(render_rule(r)[0]),
        is_digit(render_rule(r).last()),
        trim_spec(render_rule(r)) == render_rule(r),
        trim_spec(render_rule(r)) != divider_chars(),
        parse_rule_spec(render_rule(r)) == Some(r),
{
    let parts = r.map_values(|v: usize| dec_chars(v as int));
    assert forall|p: int| 0 <= p < parts.len() implies (#[trigger] parts[p]).len() >= 1 by {
        crate::text::lemma_dec_chars_val(r[p] as int);
    }
    assert forall|p: int, i: int|
        #![trigger parts[p][i]]
        0 <= p < parts.len() && 0 <= i < parts[p].len() implies is_digit(parts[p][i]) by {
        crate::text::lemma_dec_chars_val(r[p] as int);
    }
    crate::text::lemma_join_chars(parts, ' ', |c: char| is_digit(c));
    let out = render_rule(r);
    assert(out[0] == parts[0][0]);
    assert(is_digit(out[0]));
    assert(!is_space(out[0]));
    assert(!is_space(out.last()));
    assert(trim_spec(out) == out);
    assert(trim_spec(out) != divider_chars()) by {
        assert(divider_chars()[0] == '-');
        assert(!is_digit('-'));
    }
    assert forall|p: int, i: int|
        #![trigger parts[p][i]]
        0 <= p < parts.len() && 0 <= i < parts[p].len() implies parts[p][i] != ' ' by {
        assert(is_digit(parts[p][i]));
    }
    crate::text::lemma_split_join(parts, ' ');
    let toks = split_by(trim_spec(out), ' ');
    assert(toks == parts);
    assert forall|i: int| 0 <= i < toks.len() implies parse_usize_spec(
        #[trigger] toks[i],
    ) == Some(r[i]) by {
        crate::text::lemma_dec_chars_val(r[i] as int);
        assert(toks[i] == dec_chars(r[i] as int));
        assert(digits_val(toks[i]) == r[i] as int);
    }
    assert(parse_rule_spec(out) is Some) by {
        if exists|i: int| 0 <= i < toks.len() && parse_usize_spec(#[trigger] toks[i]) is None {
            let i = choose|i: int|
                0 <= i < toks.len() && parse_usize_spec(#[trigger] toks[i]) is None;
            assert(false);
        }
    }
    assert(parse_rule_spec(out).unwrap() =~= r);
}

/// The shape of a rendered axis: non-empty, a digit at either end, and every
/// character a digit, a space or a line break.
proof fn lemma_render_axis_props(a: Seq<Seq<usize>>)
    requires
        axis_wf(a),
    ensures
        render_axis_lines(a).len() >= 1,
        is_digit(render_axis_lines(a)[0]),
        is_digit(render_axis_lines(a).last()),
        forall|i: int|
            0 <= i < render_axis_lines(a).len() ==> is_digit(#[trigger] render_axis_lines(a)[i])
                || render_axis_lines(a)[i] == ' ' || render_axis_lines(a)[i] == '\n',
{
    let parts = a.map_values(|r: Seq<usize>| render_rule(r));
    assert forall|p: int| 0 <= p < parts.len() implies (#[trigger] parts[p]).len() >= 1 by {
        assert(rule_wf(a[p]));
        lemma_render_rule_props(a[p]);
    }
    assert forall|p: int, i: int|
        #![trigger parts[p][i]]
        0 <= p < parts.len() && 0 <= i < parts[p].len() implies (is_digit(parts[p][i])
        || parts[p][i] == ' ') by {
        assert(rule_wf(a[p]));
        lemma_render_rule_props(a[p]);
        assert(parts[p] == render_rule(a[p]));
    }
    crate::text::lemma_join_chars(parts, '\n', |c: char| is_digit(c) || c == ' ');
    assert(rule_wf(a[0]));
    lemma_render_rule_props(a[0]);
    assert(rule_wf(a.last()));
    lemma_render_rule_props(a.last());
    assert(parts[0] == render_rule(a[0]));
    assert(parts.last() == render_rule(a.last()));
}

/// Round trip: a rendered rules file parses back into exactly the rules it
/// was rendered from, for any well-formed pair of axes.
pub proof fn lemma_rules_round_trip(rows: Seq<Seq<usize>>, cols: Seq<Seq<usize>>)
    requires
        axis_wf(rows),
        axis_wf(cols),
    ensures
        parse_file_spec(render_rules_file(rows, cols)) == Some((rows, cols)),
{
    let rowsm = rows.map_values(|r: Seq<usize>| render_rule(r));
    let colsm = cols.map_values(|r: Seq<usize>| render_rule(r));
    let file = render_rules_file(rows, cols);
    let parts_all = rowsm + seq![divider_chars()] + colsm;
    lemma_render_axis_props(rows);
    lemma_render_axis_props(cols);

    // The file is the join of row lines, divider line, and column lines.
    assert(file == join_with(parts_all, '\n')) by {
        crate::text::lemma_join_concat(seq![divider_chars()], colsm, '\n');
        assert(join_with(seq![divider_chars()], '\n') == seq![divider_chars()][0]);
        crate::text::lemma_join_concat(rowsm, seq![divider_chars()] + colsm, '\n');
        assert(rowsm + (seq![divider_chars()] + colsm) =~= parts_all);
        assert(join_with(parts_all, '\n') == render_axis_lines(rows) + seq!['\n'] + (
        divider_chars() + seq!['\n'] + render_axis_lines(cols)));
        assert(render_axis_lines(rows) + seq!['\n'] + (divider_chars() + seq!['\n']
            + render_axis_lines(cols)) =~= file);
    }

    // Trimming leaves the file unchanged: it begins and ends with a digit.
    assert(trim_spec(file) == file) by {
        assert(file.len() >= 1);
        assert(file[0] == render_axis_lines(rows)[0]);
        assert(file.last() == render_axis_lines(cols).last());
        assert(!is_space(file[0]));
        assert(!is_space(file.last()));
    }

    // Splitting on line breaks recovers the lines.
    assert(split_by(file, '\n') == parts_all) by {
        assert forall|p: int| 0 <= p < parts_all.len() implies (#[trigger] parts_all[p]).len()
            >= 1 by {
            if p < rowsm.len() {
                assert(parts_all[p] == rowsm[p]);
                assert(rule_wf(rows[p]));
                lemma_render_rule_props(rows[p]);
            } else if p == rowsm.len() {
                assert(parts_all[p] == divider_chars());
            } else {
                assert(parts_all[p] == colsm[p - rowsm.len() - 1]);
                assert(rule_wf(cols[p - rowsm.len() - 1]));
                lemma_render_rule_props(cols[p - rowsm.len() - 1]);
            }
        }
        assert forall|p: int, i: int|
            #![trigger parts_all[p][i]]
            0 <= p < parts_all.len() && 0 <= i < parts_all[p].len() implies parts_all[p][i]
            != '\n' by {
            if p < rowsm.len() {
                assert(parts_all[p] == rowsm[p]);
                assert(rule_wf(rows[p]));
                lemma_render_rule_props(rows[p]);
                assert(is_digit(parts_all[p][i]) || parts_all[p][i] == ' ');
            } else if p == rowsm.len() {
                assert(parts_all[p] == divider_chars());
                assert(parts_all[p][i] == '-');
            } else {
                assert(parts_all[p] == colsm[p - rowsm.len() - 1]);
                assert(rule_wf(cols[p - rowsm.len() - 1]));
                lemma_render_rule_props(cols[p - rowsm.len() - 1]);
                assert(is_digit(parts_all[p][i]) || parts_all[p][i] == ' ');
            }
        }
        crate::text::lemma_split_join(parts_all, '\n');
    }

    let lines = split_by(trim_spec(file), '\n');
    assert(lines == parts_all);

    // The divider stands exactly after the row lines.
    let k = rows.len() as int;
    assert(divider_index(lines) == k) by {
        assert forall|i: int| 0 <= i < k implies trim_spec(#[trigger] lines[i])
            != divider_chars() by {
            assert(lines[i] == rowsm[i]);
            assert(rule_wf(rows[i]));
            lemma_render_rule_props(rows[i]);
        }
        assert(lines[k] == divider_chars());
        assert(trim_spec(divider_chars()) == divider_chars()) by {
            assert(divider_chars()[0] == '-');
            assert(divider_chars().last() == '-');
            assert(!is_space('-'));
        }
        lemma_divider_index_at(lines, k);
    }

    // Each block of lines parses back into its rules.
    assert(lines.take(k) =~= rowsm);
    assert(lines.skip(k + 1) =~= colsm);
    assert(parse_lines_spec(rowsm) == Some(rows)) by {
        assert forall|i: int| 0 <= i < rowsm.len() implies parse_rule_spec(
            #[trigger] rowsm[i],
        ) == Some(rows[i]) by {
            assert(rowsm[i] == render_rule(rows[i]));
            assert(rule_wf(rows[i]));
            lemma_render_rule_props(rows[i]);
        }
        if exists|i: int| 0 <= i < rowsm.len() && parse_rule_spec(#[trigger] rowsm[i]) is None {
            let i = choose|i: int|
                0 <= i < rowsm.len() && parse_rule_spec(#[trigger] rowsm[i]) is None;
            assert(false);
        }
        assert(parse_lines_spec(rowsm).unwrap() =~= rows);
    }
    assert(parse_lines_spec(colsm) == Some(cols)) by {
        assert forall|i: int| 0 <= i < colsm.len() implies parse_rule_spec(
            #[trigger] colsm[i],
        ) == Some(cols[i]) by {
            assert(colsm[i] == render_rule(cols[i]));
            assert(rule_wf(cols[i]));
            lemma_render_rule_props(cols[i]);
        }
        if exists|i: int| 0 <= i < colsm.len() && parse_rule_spec(#[trigger] colsm[i]) is None {
            let i = choose|i: int|
                0 <= i < colsm.len() && parse_rule_spec(#[trigger] colsm[i]) is None;
            assert(false);
        }
        assert(parse_lines_spec(colsm).unwrap() =~= cols);
    }
}

/// Append one rule to the output, run lengths joined by single spaces.
pub(crate) fn append_rule(out: &mut String, rule: &LineRule)
    ensures
        final(out)@ == old(out)@ + render_rule(rule@),
{
    let ghost f = |v: usize| dec_chars(v as int);
    let mut j: usize = 0;
    proof {
        assert(rule@.take(0).map_values(f) =~= Seq::<Seq<char>>::empty());
        assert(old(out)@ + join_with(rule@.take(0).map_values(f), ' ') =~= old(out)@);
    }
    while j < rule.0.len()
        invariant
            0 <= j <= rule.0@.len(),
            rule@ == rule.0@,
            f == (|v: usize| dec_chars(v as int)),
            out@ == old(out)@ + join_with(rule@.take(j as int).map_values(f), ' '),
        decreases rule.0@.len() - j,
    {
        proof {
            assert(rule@.take(j + 1).map_values(f) =~= rule@.take(j as int).map_values(f).push(
                f(rule@[j as int]),
            ));
            crate::text::lemma_join_push(rule@.take(j as int).map_values(f), f(rule@[j as int]), ' ');
        }
        if j > 0 {
            out.append(" ");
            proof {
                reveal_strlit(" ");
                assert(" "@ =~= seq![' ']);
            }
        } else {
            proof {
                assert(rule@.take(0int).map_values(f).len() == 0);
            }
        }
        crate::text::append_dec(out, rule.0[j]);
        proof {
            if j > 0 {
                assert((old(out)@ + join_with(rule@.take(j as int).map_values(f), ' ')) + seq![' ']
                    + dec_chars(rule@[j as int] as int) =~= old(out)@ + (join_with(
                    rule@.take(j as int).map_values(f),
                    ' ',
                ) + seq![' '] + dec_chars(rule@[j as int] as int)));
            } else {
                assert(old(out)@ + dec_chars(rule@[0] as int) =~= old(out)@ + join_with(
                    rule@.take(1int).map_values(f),
                    ' ',
                ));
            }
        }
        j += 1;
    }
    proof {
        assert(rule@.take(rule@.len() as int) =~= rule@);
    }
}

/// Append one axis to the output, one rule per line.
fn append_axis_lines(out: &mut String, axis: &AxisRules)
    ensures
        final(out)@ == old(out)@ + render_axis_lines(axis@),
{
    let ghost g = |r: Seq<usize>| render_rule(r);
    let mut i: usize = 0;
    proof {
        assert(axis@.take(0).map_values(g) =~= Seq::<Seq<char>>::empty());
        assert(old(out)@ + join_with(axis@.take(0).map_values(g), '\n') =~= old(out)@);
    }
    while i < axis.0.len()
        invariant
            0 <= i <= axis.0@.len(),
            axis@.len() == axis.0@.len(),
            forall|t: int| 0 <= t < axis@.len() ==> #[trigger] axis@[t] == axis.0@[t]@,
            g == (|r: Seq<usize>| render_rule(r)),
            out@ == old(out)@ + join_with(axis@.take(i as int).map_values(g), '\n'),
        decreases axis.0@.len() - i,
    {
        proof {
            assert(axis@.take(i + 1).map_values(g) =~= axis@.take(i as int).map_values(g).push(
                g(axis@[i as int]),
            ));
            crate::text::lemma_join_push(axis@.take(i as int).map_values(g), g(axis@[i as int]), '\n');
        }
        if i > 0 {
            out.append("\n");
            proof {
                reveal_strlit("\n");
                assert("\n"@ =~= seq!['\n']);
            }
        } else {
            proof {
                assert(axis@.take(0int).map_values(g).len() == 0);
            }
        }
        append_rule(out, &axis.0[i]);
        proof {
            assert(axis@[i as int] == axis.0@[i as int]@);
            if i > 0 {
                assert((old(out)@ + join_with(axis@.take(i as int).map_values(g), '\n'))
                    + seq!['\n'] + render_rule(axis@[i as int]) =~= old(out)@ + (join_with(
                    axis@.take(i as int).map_values(g),
                    '\n',
                ) + seq!['\n'] + render_rule(axis@[i as int])));
            } else {
                assert(old(out)@ + render_rule(axis@[0]) =~= old(out)@ + join_with(
                    axis@.take(1int).map_values(g),
                    '\n',
                ));
            }
        }
        i += 1;
    }
    proof {
        assert(axis@.take(axis@.len() as int) =~= axis@);
    }
}

impl PicrossGame {
    /// Serialize the puzzle as a rules file: the row rules, one per line,
    /// then a divider line of five hyphens, then the column rules.
    pub fn to_rules_file_string(&self) -> (r: String)
        ensures
            r@ == render_rules_file(self.rows@, self.columns@),
    {
        let mut out = String::new();
        append_axis_lines(&mut out, &self.rows);
        out.append("\n-----\n");
        proof {
            reveal_strlit("\n-----\n");
            assert("\n-----\n"@ =~= seq!['\n'] + divider_chars() + seq!['\n']);
        }
        append_axis_lines(&mut out, &self.columns);
        proof {
            assert((render_axis_lines(self.rows@) + (seq!['\n'] + divider_chars() + seq!['\n']))
                + render_axis_lines(self.columns@) =~= render_rules_file(
                self.rows@,
                self.columns@,
            ));
        }
        out
    }

    /// Parse a rules file: the lines before the first divider line give the
    /// row rules, the lines after it the column rules; the puzzle is then
    /// validated as in `from_rules`.
    pub fn from_rules_file_string(input: &str) -> (r: Result<Self, PicrossError>)
        ensures
            match r {
                Ok(g) => parse_file_spec(input@) == Some((g.rows@, g.columns@)) && g.wf()
                    && sum_axis(g.rows@) <= usize::MAX,
                Err(e) => {
                    ||| (e == PicrossError::ParseError && (parse_file_spec(input@) is None
                        || !axis_wf(parse_file_spec(input@).unwrap().0) || !axis_wf(
                        parse_file_spec(input@).unwrap().1,
                    )))
                    ||| (e == PicrossError::DimensionMismatch && parse_file_spec(input@) is Some
                        && {
                        let rs = sum_axis(parse_file_spec(input@).unwrap().0);
                        let cs = sum_axis(parse_file_spec(input@).unwrap().1);
                        rs != cs || rs > usize::MAX || cs > usize::MAX
                    })
                },
            },
    {
        let chars = crate::text::chars_of(input);
        let trimmed = trim_chars(&chars);
        let lines = split_chars(&trimmed, '\n');
        let ghost lines_spec = split_by(trim_spec(input@), '\n');
        proof {
            assert(lines@.map_values(|p: Vec<char>| p@) == lines_spec);
        }
        // Find the divider line.
        let mut k: usize = 0;
        let mut found = false;
        while k < lines.len() && !found
            invariant
                0 <= k <= lines@.len(),
                lines_spec == split_by(trim_spec(input@), '\n'),
                lines@.map_values(|p: Vec<char>| p@) == lines_spec,
                lines@.len() == lines_spec.len(),
                found ==> k < lines@.len() && trim_spec(lines_spec[k as int]) == divider_chars(),
                forall|i: int|
                    0 <= i < lines_spec.len() && i < k && !(found && i == k) ==> trim_spec(
                        #[trigger] lines_spec[i],
                    ) != divider_chars(),
                !found ==> forall|i: int|
                    0 <= i < k ==> trim_spec(#[trigger] lines_spec[i]) != divider_chars(),
            decreases lines@.len() - k + (if found { 0int } else { 1int }),
        {
            proof {
                assert(lines@[k as int]@ == lines_spec[k as int]);
            }
            let t = trim_chars(&lines[k]);
            let is_div = t.len() == 5 && t[0] == '-' && t[1] == '-' && t[2] == '-' && t[3] == '-'
                && t[4] == '-';
            proof {
                if is_div {
                    assert(t@ =~= divider_chars());
                } else {
                    assert(t@ != divider_chars());
                }
            }
            if is_div {
                found = true;
            } else {
                k += 1;
            }
        }
        if !found {
            proof {
                if divider_index(lines_spec) >= 0 {
                    lemma_divider_index_bounds(lines_spec);
                }
            }
            return Err(PicrossError::ParseError);
        }
        proof {
            lemma_divider_index_at(lines_spec, k as int);
        }
        // Parse the rule lines of each block.
        let mut row_rules: Vec<LineRule> = Vec::new();
        let mut i: usize = 0;
        while i < k
            invariant
                0 <= i <= k < lines@.len(),
                lines_spec == split_by(trim_spec(input@), '\n'),
                lines@.map_values(|p: Vec<char>| p@) == lines_spec,
                divider_index(lines_spec) == k as int,
                trim_spec(lines_spec[k as int]) == divider_chars(),
                row_rules@.len() == i,
                forall|j: int|
                    0 <= j < i ==> parse_rule_spec(lines_spec[j]) == Some(
                        (#[trigger] row_rules@[j])@,
                    ),
            decreases k - i,
        {
            proof {
                assert(lines@[i as int]@ == lines_spec[i as int]);
            }
            match parse_rule_chars(crate::text::copy_chars(&lines[i])) {
                Ok(rule) => {
                    row_rules.push(rule);
                },
                Err(_) => {
                    proof {
                        assert(lines_spec.take(k as int)[i as int] == lines_spec[i as int]);
                        assert(parse_lines_spec(lines_spec.take(k as int)) is None);
                    }
                    return Err(PicrossError::ParseError);
                },
            }
            i += 1;
        }
        let mut col_rules: Vec<LineRule> = Vec::new();
        let mut i: usize = k + 1;
        while i < lines.len()
            invariant
                k + 1 <= i <= lines@.len() || (i == k + 1),
                0 <= k < lines@.len(),
                k + 1 <= i,
                i <= lines@.len() || i == k + 1,
                lines_spec == split_by(trim_spec(input@), '\n'),
                lines@.map_values(|p: Vec<char>| p@) == lines_spec,
                divider_index(lines_spec) == k as int,
                col_rules@.len() == i - k - 1,
                forall|j: int|
                    0 <= j < i - k - 1 ==> parse_rule_spec(lines_spec[k + 1 + j]) == Some(
                        (#[trigger] col_rules@[j])@,
                    ),
            decreases lines@.len() - i,
        {
            proof {
                assert(lines@[i as int]@ == lines_spec[i as int]);
            }
            match parse_rule_chars(crate::text::copy_chars(&lines[i])) {
                Ok(rule) => {
                    col_rules.push(rule);
                },
                Err(_) => {
                    proof {
                        assert(lines_spec.skip(k + 1)[i - k - 1] == lines_spec[i as int]);
                        assert(parse_lines_spec(lines_spec.skip(k + 1)) is None);
                    }
                    return Err(PicrossError::ParseError);
                },
            }
            i += 1;
        }
        let rows = AxisRules(row_rules);
        let columns = AxisRules(col_rules);
        proof {
            let rlines = lines_spec.take(k as int);
            assert forall|j: int| 0 <= j < rlines.len() implies parse_rule_spec(
                #[trigger] rlines[j],
            ) is Some by {
                assert(rlines[j] == lines_spec[j]);
                assert(parse_rule_spec(lines_spec[j]) == Some(row_rules@[j]@));
            }
            assert(parse_lines_spec(rlines) is Some);
            assert(rows@ =~= parse_lines_spec(rlines).unwrap()) by {
                assert forall|j: int| 0 <= j < rows@.len() implies rows@[j] == parse_lines_spec(
                    rlines,
                ).unwrap()[j] by {
                    assert(rows@[j] == row_rules@[j]@);
                    assert(rlines[j] == lines_spec[j]);
                }
            }
            let clines = lines_spec.skip(k + 1);
            assert forall|j: int| 0 <= j < clines.len() implies parse_rule_spec(
                #[trigger] clines[j],
            ) is Some by {
                assert(clines[j] == lines_spec[k + 1 + j]);
                assert(parse_rule_spec(lines_spec[k + 1 + j]) == Some(col_rules@[j]@));
            }
            assert(parse_lines_spec(clines) is Some);
            assert(columns@ =~= parse_lines_spec(clines).unwrap()) by {
                assert forall|j: int| 0 <= j < columns@.len() implies columns@[j]
                    == parse_lines_spec(clines).unwrap()[j] by {
                    assert(columns@[j] == col_rules@[j]@);
                    assert(clines[j] == lines_spec[k + 1 + j]);
                }
            }
            assert(parse_file_spec(input@) == Some((rows@, columns@)));
        }
        Self::build(rows, columns)
    }
}

// ---------------------------------------------------------------------------
// Validation
// ---------------------------------------------------------------------------

/// How one line's extracted run lengths compare with its rule.
#[derive(Clone, Copy, Debug, PartialEq, Eq, Structural)]
pub enum ChunksValidation {
    Valid,
    InProgress,
    Invalid,
}

/// How a partial board stands with respect to a puzzle.
#[derive(Debug)]
pub enum BoardState {
    Complete(GameBoard),
    InProgress,
    Invalid,
}

/// Classify extracted run lengths against a rule: Valid when they are the
/// rule exactly, Invalid when they are more runs than the rule has or some
/// run is already longer than the rule allows, InProgress otherwise.
pub open spec fn validate_chunks_spec(rule: Seq<usize>, chunks: Seq<int>) -> ChunksValidation {
    if chunks == rule_ints(rule) {
        ChunksValidation::Valid
    } else if chunks.len() > rule.len() {
        ChunksValidation::Invalid
    } else if exists|i: int| 0 <= i < chunks.len() && chunks[i] > rule[i] {
        ChunksValidation::Invalid
    } else {
        ChunksValidation::InProgress
    }
}

/// Classify one column's extracted run lengths against its rule.
pub fn validate_chunks(rule: &LineRule, chunks: Vec<usize>) -> (r: ChunksValidation)
    ensures
        r == validate_chunks_spec(rule@, rule_ints(chunks@)),
{
    let ghost ci = rule_ints(chunks@);
    // Exact equality with the rule.
    if chunks.len() == rule.0.len() {
        let mut i: usize = 0;
        let mut equal = true;
        while i < chunks.len()
            invariant
                0 <= i <= chunks@.len(),
                chunks@.len() == rule.0@.len(),
                equal == (forall|j: int| 0 <= j < i ==> chunks@[j] == rule.0@[j]),
            decreases chunks@.len() - i,
        {
            if chunks[i] != rule.0[i] {
                equal = false;
            }
            i += 1;
        }
        if equal {
            proof {
                assert(rule_ints(chunks@) =~= rule_ints(rule@));
            }
            return ChunksValidation::Valid;
        }
        proof {
            let j = choose|j: int| 0 <= j < chunks@.len() && chunks@[j] != rule.0@[j];
            assert(rule_ints(chunks@)[j] != rule_ints(rule@)[j]);
        }
    } else {
        proof {
            assert(rule_ints(chunks@).len() != rule_ints(rule@).len());
        }
    }
    if chunks.len() > rule.0.len() {
        return ChunksValidation::Invalid;
    }
    let mut i: usize = 0;
    while i < chunks.len()
        invariant
            0 <= i <= chunks@.len(),
            chunks@.len() <= rule.0@.len(),
            rule_ints(chunks@) != rule_ints(rule@),
            ci == rule_ints(chunks@),
            forall|j: int| 0 <= j < i ==> ci[j] <= rule@[j],
        decreases chunks@.len() - i,
    {
        if chunks[i] > rule.0[i] {
            proof {
                assert(ci[i as int] > rule@[i as int]);
            }
            return ChunksValidation::Invalid;
        }
        i += 1;
    }
    proof {
        assert(forall|j: int| 0 <= j < ci.len() ==> !(ci[j] > rule@[j]));
    }
    ChunksValidation::InProgress
}

/// The board has more rows than the puzzle, or some column's runs already
/// contradict its rule.
pub open spec fn board_invalid(
    rows_len: int,
    cols: Seq<Seq<usize>>,
    b: Seq<Seq<TileState>>,
) -> bool {
    b.len() > rows_len || exists|j: int|
        0 <= j < cols.len() && validate_chunks_spec(
            cols[j],
            chunks_repr(col_of(b, j)),
        ) is Invalid
}

/// Every column's runs equal its rule exactly and the board has as many rows
/// as the puzzle.
pub open spec fn board_complete(
    rows_len: int,
    cols: Seq<Seq<usize>>,
    b: Seq<Seq<TileState>>,
) -> bool {
    b.len() == rows_len && forall|j: int|
        0 <= j < cols.len() ==> validate_chunks_spec(
            #[trigger] cols[j],
            chunks_repr(col_of(b, j)),
        ) is Valid
}

/// Classify a partial board against the puzzle's column rules. Fails when a
/// column still has Undetermined cells, from which runs cannot be read.
pub fn validate_board(game: &PicrossGame, board: &GameBoard) -> (r: Result<
    BoardState,
    PicrossError,
>)
    requires
        grid(board@, game.columns@.len() as int),
    ensures
        match r {
            Ok(st) => match st {
                BoardState::Invalid => board_invalid(
                    game.rows@.len() as int,
                    game.columns@,
                    board@,
                ),
                BoardState::Complete(cb) => cb@ == board@ && board_complete(
                    game.rows@.len() as int,
                    game.columns@,
                    board@,
                ) && !board_invalid(game.rows@.len() as int, game.columns@, board@),
                BoardState::InProgress => !board_invalid(
                    game.rows@.len() as int,
                    game.columns@,
                    board@,
                ) && !board_complete(game.rows@.len() as int, game.columns@, board@),
            },
            Err(e) => e == PicrossError::UndeterminedLine && exists|j: int|
                0 <= j < game.columns@.len() && !line_determined(col_of(board@, j)),
        },
{
    let height = board.height();
    if height > game.height() {
        return Ok(BoardState::Invalid);
    }
    let w = game.width();
    let ghost cols = game.columns@;
    let ghost b = board@;
    let mut all_valid = true;
    let mut j: usize = 0;
    while j < w
        invariant
            0 <= j <= w,
            w == game.columns@.len(),
            cols == game.columns@,
            b == board@,
            grid(board@, game.columns@.len() as int),
            board@.len() <= game.rows@.len(),
            forall|t: int|
                0 <= t < j ==> !(validate_chunks_spec(
                    #[trigger] cols[t],
                    chunks_repr(col_of(b, t)),
                ) is Invalid),
            all_valid == (forall|t: int|
                0 <= t < j ==> validate_chunks_spec(
                    #[trigger] cols[t],
                    chunks_repr(col_of(b, t)),
                ) is Valid),
        decreases w - j,
    {
        let chunks = match board.get_column_chunks(j) {
            Ok(c) => c,
            Err(e) => {
                proof {
                    if e == PicrossError::OutOfBounds {
                        assert(forall|y: int|
                            0 <= y < board@.len() ==> j < (#[trigger] board@[y]).len());
                        assert(false);
                    }
                }
                return Err(PicrossError::UndeterminedLine);
            },
        };
        proof {
            assert(game.columns@[j as int] == game.columns.0@[j as int]@);
        }
        match validate_chunks(&game.columns.0[j], chunks) {
            ChunksValidation::Valid => {},
            ChunksValidation::InProgress => {
                all_valid = false;
            },
            ChunksValidation::Invalid => {
                return Ok(BoardState::Invalid);
            },
        }
        j += 1;
    }
    if all_valid && height == game.height() {
        Ok(BoardState::Complete(board.duplicate()))
    } else {
        proof {
            if all_valid {
                assert(board@.len() != game.rows@.len());
            } else {
                let t = choose|t: int|
                    0 <= t < w && !(validate_chunks_spec(
                        #[trigger] cols[t],
                        chunks_repr(col_of(b, t)),
                    ) is Valid);
                assert(!board_complete(game.rows@.len() as int, game.columns@, board@));
            }
        }
        Ok(BoardState::InProgress)
    }
}

// ---------------------------------------------------------------------------
// Solutions and line propagation
// ---------------------------------------------------------------------------

/// The line satisfies the run constraint: it is one of the lines the
/// generator enumerates for that rule and width.
pub open spec fn line_fits(l: Seq<TileState>, rule: Seq<usize>, width: int) -> bool {
    all_lines(rule, width).contains(l)
}

/// A full solution of a puzzle: a fully determined board of the right
/// dimensions whose every row and every column satisfies its rule.
pub open spec fn is_solution(
    rows: Seq<Seq<usize>>,
    cols: Seq<Seq<usize>>,
    b: Seq<Seq<TileState>>,
) -> bool {
    &&& b.len() == rows.len()
    &&& grid(b, cols.len() as int)
    &&& forall|i: int| 0 <= i < rows.len() ==> line_fits(#[trigger] b[i], rows[i], cols.len() as int)
    &&& forall|j: int|
        0 <= j < cols.len() ==> line_fits(col_of(b, j), #[trigger] cols[j], rows.len() as int)
}

/// What one line-intersection step computes for one line: the consensus of
/// every placement of the rule that does not contradict the reference line,
/// or nothing when no placement is compatible.
pub open spec fn partial_line_spec(rule: Seq<usize>, width: int, refl: Seq<TileState>) -> Option<
    Seq<TileState>,
> {
    let cands = compatible_candidates(all_lines(rule, width), refl);
    if cands.len() == 0 {
        None
    } else {
        Some(consensus_line(cands, width))
    }
}

pub open spec fn rows_pass_ok(rows: Seq<Seq<usize>>, width: int, b: Seq<Seq<TileState>>) -> bool {
    forall|i: int|
        0 <= i < rows.len() ==> partial_line_spec(#[trigger] rows[i], width, b[i]) is Some
}

/// The board of row intersections, one per row rule.
pub open spec fn rows_pass(rows: Seq<Seq<usize>>, width: int, b: Seq<Seq<TileState>>) -> Seq<
    Seq<TileState>,
> {
    Seq::new(rows.len(), |i: int| partial_line_spec(rows[i], width, b[i]).unwrap())
}

pub open spec fn cols_pass_ok(cols: Seq<Seq<usize>>, height: int, b: Seq<Seq<TileState>>) -> bool {
    forall|x: int|
        0 <= x < cols.len() ==> partial_line_spec(#[trigger] cols[x], height, col_of(b, x)) is Some
}

/// The column intersections, one per column rule, each read top to bottom.
pub open spec fn cols_pass(cols: Seq<Seq<usize>>, height: int, b: Seq<Seq<TileState>>) -> Seq<
    Seq<TileState>,
> {
    Seq::new(cols.len(), |x: int| partial_line_spec(cols[x], height, col_of(b, x)).unwrap())
}

/// The lines of `b` read crosswise: entry `k` is line `k` of `b` read along
/// the other axis.
pub open spec fn transpose(b: Seq<Seq<TileState>>, n: int) -> Seq<Seq<TileState>> {
    Seq::new(n as nat, |k: int| col_of(b, k))
}

/// Every candidate that survives the compatibility filter is a generated
/// line of the rule.
proof fn lemma_cands_members(rule: Seq<usize>, width: int, refl: Seq<TileState>, k: int)
    requires
        0 <= k < compatible_candidates(all_lines(rule, width), refl).len(),
    ensures
        all_lines(rule, width).contains(compatible_candidates(all_lines(rule, width), refl)[k]),
        crate::iterators::line_compatible(
            compatible_candidates(all_lines(rule, width), refl)[k],
            refl,
        ),
{
    let lines = all_lines(rule, width);
    let pred = |l: Seq<TileState>| crate::iterators::line_compatible(l, refl);
    let elem = lines.filter(pred)[k];
    assert(lines.filter(pred).contains(elem));
    lines.lemma_filter_contains_rev(pred, elem);
    Seq::<Seq<TileState>>::lemma_filter_pred(lines, pred, k);
}

/// A partially solved line keeps every cell the reference line had already
/// determined.
pub proof fn lemma_partial_line_refines(
    rule: Seq<usize>,
    width: int,
    refl: Seq<TileState>,
    l: Seq<TileState>,
)
    requires
        width >= 0,
        refl.len() == width,
        partial_line_spec(rule, width, refl) == Some(l),
    ensures
        l.len() == width,
        forall|j: int|
            0 <= j < width && !((#[trigger] refl[j]) is Undetermined) ==> l[j] == refl[j],
{
    let cands = compatible_candidates(all_lines(rule, width), refl);
    assert(cands.len() > 0);
    assert(l == consensus_line(cands, width));
    assert forall|j: int|
        0 <= j < width && !((#[trigger] refl[j]) is Undetermined) implies l[j] == refl[j] by {
        if refl[j] is Filled {
            assert forall|k: int| 0 <= k < cands.len() implies (#[trigger] cands[k])[j]
                is Filled by {
                lemma_cands_members(rule, width, refl, k);
                crate::iterators::lemma_all_lines_shape(rule, width, cands[k]);
                assert(!crate::game_board::tiles_conflict(cands[k][j], refl[j]));
                assert(!(cands[k][j] is Undetermined));
            }
            assert(crate::iterators::consensus_tile(cands, j) is Filled);
        } else {
            assert(refl[j] is Empty);
            assert forall|k: int| 0 <= k < cands.len() implies (#[trigger] cands[k])[j]
                is Empty by {
                lemma_cands_members(rule, width, refl, k);
                crate::iterators::lemma_all_lines_shape(rule, width, cands[k]);
                assert(!crate::game_board::tiles_conflict(cands[k][j], refl[j]));
                assert(!(cands[k][j] is Undetermined));
            }
            if !(crate::iterators::consensus_tile(cands, j) is Empty) {
                assert(cands[0][j] is Filled);
                assert(false);
            }
        }
    }
}

/// A fully determined partially solved line satisfies its rule: it is one
/// of the generated candidates.
pub proof fn lemma_partial_line_determined_fits(
    rule: Seq<usize>,
    width: int,
    refl: Seq<TileState>,
    l: Seq<TileState>,
)
    requires
        width >= 0,
        partial_line_spec(rule, width, refl) == Some(l),
        line_determined(l),
    ensures
        line_fits(l, rule, width),
{
    let cands = compatible_candidates(all_lines(rule, width), refl);
    assert(cands.len() > 0);
    assert(l == consensus_line(cands, width));
    lemma_cands_members(rule, width, refl, 0);
    let c0 = cands[0];
    crate::iterators::lemma_all_lines_shape(rule, width, c0);
    assert forall|j: int| 0 <= j < width implies c0[j] == l[j] by {
        assert(l[j] == crate::iterators::consensus_tile(cands, j));
        if l[j] is Filled {
        } else if l[j] is Empty {
        } else {
            assert(!(l[j] is Undetermined));
        }
    }
    assert(c0 =~= l);
    assert(all_lines(rule, width).contains(l));
}

/// Extracting column `x` from crosswise-read lines gives line `x` back.
pub proof fn lemma_transpose_col(cp: Seq<Seq<TileState>>, h: int, x: int)
    requires
        h >= 0,
        0 <= x < cp.len(),
        cp[x].len() == h,
    ensures
        col_of(transpose(cp, h), x) == cp[x],
{
    assert forall|y: int| 0 <= y < h implies col_of(transpose(cp, h), x)[y] == cp[x][y] by {
        assert(transpose(cp, h)[y] == col_of(cp, y));
        assert(col_of(cp, y)[x] == cp[x][y]);
    }
    assert(col_of(transpose(cp, h), x) =~= cp[x]);
}

/// For a meaningful rule, the extracted run representation of a line equals
/// the rule exactly when the line's runs are the rule's normalized runs.
proof fn lemma_chunks_repr_norm(rule: Seq<usize>, l: Seq<TileState>)
    requires
        rule_wf(rule),
    ensures
        (chunks_repr(l) == rule_ints(rule)) == (crate::game_board::runs(l) == rule_ints(
            crate::iterators::normalize_rule(rule),
        )),
{
    let r = crate::game_board::runs(l);
    crate::game_board::lemma_runs_from_positive(l, 0, 0);
    if rule == seq![0usize] {
        assert(crate::iterators::normalize_rule(rule) =~= Seq::<usize>::empty()) by {
            reveal_with_fuel(Seq::filter, 3);
            assert(rule.drop_last() =~= Seq::<usize>::empty());
            assert(rule.last() == 0usize);
            assert(Seq::<usize>::empty().filter(|v: usize| v > 0) =~= Seq::<usize>::empty());
        }
        assert(rule_ints(seq![0usize]) =~= seq![0int]);
        assert(rule_ints(Seq::<usize>::empty()) =~= Seq::<int>::empty());
        if r.len() == 0 {
            assert(chunks_repr(l) == seq![0int]);
            assert(r =~= Seq::<int>::empty());
        } else {
            assert(chunks_repr(l) == r);
            assert(r[0] >= 1);
            if chunks_repr(l) == rule_ints(rule) {
                assert(r[0] == seq![0int][0]);
                assert(false);
            }
        }
    } else {
        assert(forall|t: int| 0 <= t < rule.len() ==> rule[t] > 0);
        crate::iterators::lemma_normalize_positive_identity(rule);
        if r.len() == 0 {
            assert(chunks_repr(l) == seq![0int]);
            assert(rule_ints(rule).len() == rule.len());
            if chunks_repr(l) == rule_ints(rule) {
                assert(rule.len() == 1);
                assert(rule_ints(rule)[0] == rule[0] as int);
                assert(rule[0] > 0);
                assert(seq![0int][0] == 0);
                assert(false);
            }
            if r == rule_ints(rule) {
                assert(false);
            }
        } else {
            assert(chunks_repr(l) == r);
        }
    }
}

/// No prefix of a line that satisfies a rule is ever classified Invalid:
/// its extracted runs are a plausible beginning of the rule.
proof fn lemma_prefix_not_invalid(rule: Seq<usize>, l: Seq<TileState>, n: int)
    requires
        rule_wf(rule),
        0 <= n <= l.len(),
        crate::game_board::runs(l) == rule_ints(crate::iterators::normalize_rule(rule)),
    ensures
        !(validate_chunks_spec(rule, chunks_repr(l.take(n))) is Invalid),
{
    let p = l.take(n);
    let rp = crate::game_board::runs(p);
    let rl = crate::game_board::runs(l);
    crate::game_board::lemma_runs_prefix(l, n, 0, 0);
    crate::game_board::lemma_runs_from_positive(l, 0, 0);
    crate::game_board::lemma_runs_from_positive(p, 0, 0);
    if rp.len() == 0 {
        // The prefix reads as the degenerate run 0, which never exceeds a
        // meaningful rule.
        assert(chunks_repr(p) == seq![0int]);
        if validate_chunks_spec(rule, seq![0int]) is Invalid {
            assert(rule.len() >= 1);
            if seq![0int].len() > rule.len() {
                assert(false);
            }
            let t = choose|t: int| 0 <= t < seq![0int].len() && seq![0int][t] > rule[t];
            assert(t == 0);
            assert(false);
        }
    } else {
        assert(chunks_repr(p) == rp);
        if rule == seq![0usize] {
            assert(crate::iterators::normalize_rule(rule) =~= Seq::<usize>::empty()) by {
                reveal_with_fuel(Seq::filter, 3);
                assert(rule.drop_last() =~= Seq::<usize>::empty());
                assert(rule.last() == 0usize);
                assert(Seq::<usize>::empty().filter(|v: usize| v > 0) =~= Seq::<usize>::empty());
            }
            assert(rule_ints(Seq::<usize>::empty()) =~= Seq::<int>::empty());
            assert(rl.len() == 0);
            assert(rp.len() <= rl.len());
            assert(false);
        }
        crate::iterators::lemma_normalize_positive_identity(rule);
        assert(rl == rule_ints(rule));
        assert(rl.len() == rule.len());
        if validate_chunks_spec(rule, rp) is Invalid {
            if rp == rule_ints(rule) {
                assert(!(validate_chunks_spec(rule, rp) is Invalid));
            }
            assert(rp.len() <= rule.len());
            let t = choose|t: int| 0 <= t < rp.len() && rp[t] > rule[t];
            assert(rule_ints(rule)[t] == rule[t] as int);
            if t < rp.len() - 1 {
                assert(rp[t] == rl[t]);
                assert(false);
            } else {
                assert(rp[rp.len() - 1] <= rl[rp.len() - 1]);
                assert(false);
            }
        }
    }
}

/// A solution passes the validator as Complete: every column's extracted
/// runs equal its rule, and the board has the full height.
pub proof fn lemma_solution_board_complete(
    rows: Seq<Seq<usize>>,
    cols: Seq<Seq<usize>>,
    b: Seq<Seq<TileState>>,
)
    requires
        rows.len() <= usize::MAX,
        forall|j: int| 0 <= j < cols.len() ==> rule_wf(#[trigger] cols[j]),
        is_solution(rows, cols, b),
    ensures
        board_complete(rows.len() as int, cols, b),
{
    assert forall|j: int| 0 <= j < cols.len() implies validate_chunks_spec(
        #[trigger] cols[j],
        chunks_repr(col_of(b, j)),
    ) is Valid by {
        assert(line_fits(col_of(b, j), cols[j], rows.len() as int));
        crate::iterators::lemma_all_lines_runs(cols[j], rows.len() as int, col_of(b, j));
        lemma_chunks_repr_norm(cols[j], col_of(b, j));
        assert(chunks_repr(col_of(b, j)) == rule_ints(cols[j]));
    }
}

/// No prefix of a solution is ever classified Invalid by the validator.
pub proof fn lemma_solution_prefix_valid(
    rows: Seq<Seq<usize>>,
    cols: Seq<Seq<usize>>,
    b: Seq<Seq<TileState>>,
    n: int,
)
    requires
        rows.len() <= usize::MAX,
        forall|j: int| 0 <= j < cols.len() ==> rule_wf(#[trigger] cols[j]),
        is_solution(rows, cols, b),
        0 <= n <= b.len(),
    ensures
        !board_invalid(rows.len() as int, cols, b.take(n)),
{
    assert(b.take(n).len() == n <= rows.len());
    assert forall|j: int| 0 <= j < cols.len() implies !(validate_chunks_spec(
        #[trigger] cols[j],
        chunks_repr(col_of(b.take(n), j)),
    ) is Invalid) by {
        assert(line_fits(col_of(b, j), cols[j], rows.len() as int));
        crate::iterators::lemma_all_lines_runs(cols[j], rows.len() as int, col_of(b, j));
        assert(col_of(b.take(n), j) =~= col_of(b, j).take(n));
        lemma_prefix_not_invalid(cols[j], col_of(b, j), n);
    }
}

/// A line of a solution survives one line intersection: it is itself a
/// compatible candidate, so the intersection exists and keeps agreeing with
/// it wherever it is determined.
proof fn lemma_solution_survives_line(
    rule: Seq<usize>,
    width: int,
    refl: Seq<TileState>,
    sl: Seq<TileState>,
)
    requires
        width >= 0,
        sl.len() == width,
        refl.len() == width,
        all_lines(rule, width).contains(sl),
        line_refines(sl, refl),
    ensures
        partial_line_spec(rule, width, refl) is Some,
        line_refines(sl, partial_line_spec(rule, width, refl).unwrap()),
{
    let lines = all_lines(rule, width);
    let pred = |l: Seq<TileState>| crate::iterators::line_compatible(l, refl);
    assert(crate::iterators::line_compatible(sl, refl)) by {
        assert forall|j: int|
            0 <= j < sl.len() && j < refl.len() implies !crate::game_board::tiles_conflict(
            sl[j],
            refl[j],
        ) by {
            if !(refl[j] is Undetermined) {
                assert(sl[j] == refl[j]);
            }
        }
    }
    Seq::<Seq<TileState>>::lemma_filter_contains(lines, pred, lines.index_of(sl));
    assert(lines[lines.index_of(sl)] == sl);
    let cands = compatible_candidates(lines, refl);
    assert(cands.contains(sl));
    assert(cands.len() > 0);
    let ci = choose|ci: int| 0 <= ci < cands.len() && cands[ci] == sl;
    let res = partial_line_spec(rule, width, refl).unwrap();
    assert forall|j: int|
        0 <= j < res.len() && !((#[trigger] res[j]) is Undetermined) implies sl[j] == res[j] by {
        assert(res[j] == crate::iterators::consensus_tile(cands, j));
        if res[j] is Filled {
            assert(cands[ci][j] is Filled);
        } else {
            assert(cands[ci][j] is Empty);
        }
    }
}

/// A solution survives one full propagation step: both passes succeed and
/// the propagated board still agrees with the solution.
pub proof fn lemma_solution_survives_step(
    rows: Seq<Seq<usize>>,
    cols: Seq<Seq<usize>>,
    b: Seq<Seq<TileState>>,
    s: Seq<Seq<TileState>>,
)
    requires
        is_solution(rows, cols, s),
        b.len() == rows.len(),
        grid(b, cols.len() as int),
        board_refines(s, b),
    ensures
        rows_pass_ok(rows, cols.len() as int, b),
        cols_pass_ok(cols, rows.len() as int, rows_pass(rows, cols.len() as int, b)),
        board_refines(
            s,
            transpose(
                cols_pass(cols, rows.len() as int, rows_pass(rows, cols.len() as int, b)),
                rows.len() as int,
            ),
        ),
{
    let w = cols.len() as int;
    let h = rows.len() as int;
    assert forall|i: int| 0 <= i < rows.len() implies partial_line_spec(
        #[trigger] rows[i],
        w,
        b[i],
    ) is Some && line_refines(s[i], partial_line_spec(rows[i], w, b[i]).unwrap()) by {
        assert(line_fits(s[i], rows[i], w));
        assert(line_refines(s[i], b[i]));
        lemma_solution_survives_line(rows[i], w, b[i], s[i]);
    }
    let mid = rows_pass(rows, w, b);
    assert(board_refines(s, mid)) by {
        assert forall|y: int| 0 <= y < mid.len() implies line_refines(s[y], #[trigger] mid[y]) by {
            assert(mid[y] == partial_line_spec(rows[y], w, b[y]).unwrap());
        }
    }
    assert(grid(mid, w)) by {
        assert forall|y: int| 0 <= y < mid.len() implies (#[trigger] mid[y]).len() == w by {
            assert(mid[y] == partial_line_spec(rows[y], w, b[y]).unwrap());
        }
    }
    assert forall|x: int| 0 <= x < cols.len() implies partial_line_spec(
        #[trigger] cols[x],
        h,
        col_of(mid, x),
    ) is Some && line_refines(col_of(s, x), partial_line_spec(cols[x], h, col_of(mid, x)).unwrap())
        by {
        assert(line_fits(col_of(s, x), cols[x], h));
        assert(col_of(s, x).len() == h);
        assert(col_of(mid, x).len() == h);
        assert(line_refines(col_of(s, x), col_of(mid, x))) by {
            assert forall|y: int|
                0 <= y < h && !((#[trigger] col_of(mid, x)[y]) is Undetermined) implies col_of(
                s,
                x,
            )[y] == col_of(mid, x)[y] by {
                assert(col_of(mid, x)[y] == mid[y][x]);
                assert(line_refines(s[y], mid[y]));
                assert(col_of(s, x)[y] == s[y][x]);
            }
        }
        lemma_solution_survives_line(cols[x], h, col_of(mid, x), col_of(s, x));
    }
    let cp = cols_pass(cols, h, mid);
    let out = transpose(cp, h);
    assert(board_refines(s, out)) by {
        assert forall|y: int| 0 <= y < out.len() implies line_refines(s[y], #[trigger] out[y]) by {
            assert(out[y] == col_of(cp, y));
            assert(s[y].len() == w);
            assert(out[y].len() == w);
            assert forall|x: int|
                0 <= x < w && !((#[trigger] out[y][x]) is Undetermined) implies s[y][x]
                == out[y][x] by {
                assert(out[y][x] == cp[x][y]);
                assert(cp[x] == partial_line_spec(cols[x], h, col_of(mid, x)).unwrap());
                assert(line_refines(col_of(s, x), cp[x]));
                assert(col_of(s, x)[y] == s[y][x]);
            }
        }
    }
}

/// An all-Undetermined board agrees with every solution.
pub proof fn lemma_empty_board_refines(s: Seq<Seq<TileState>>, w: int, h: int)
    requires
        s.len() == h,
        grid(s, w),
    ensures
        board_refines(s, empty_board(w, h)),
{
    let e = empty_board(w, h);
    assert forall|y: int| 0 <= y < e.len() implies line_refines(s[y], #[trigger] e[y]) by {
        assert(e[y].len() == w as nat);
        assert forall|j: int|
            0 <= j < e[y].len() && !((#[trigger] e[y][j]) is Undetermined) implies s[y][j]
            == e[y][j] by {
            assert(e[y][j] == TileState::Undetermined);
        }
    }
}

/// A fully determined board whose every column's extracted runs equal its
/// rule is left unchanged by a column pass.
pub proof fn lemma_complete_board_confirms(cols: Seq<Seq<usize>>, h: int, b: Seq<Seq<TileState>>)
    requires
        0 <= h <= usize::MAX,
        b.len() == h,
        grid(b, cols.len() as int),
        crate::game_board::board_determined(b),
        forall|j: int| 0 <= j < cols.len() ==> rule_wf(#[trigger] cols[j]),
        forall|j: int|
            0 <= j < cols.len() ==> validate_chunks_spec(
                #[trigger] cols[j],
                chunks_repr(col_of(b, j)),
            ) is Valid,
    ensures
        cols_pass_ok(cols, h, b),
        transpose(cols_pass(cols, h, b), h) == b,
{
    assert forall|x: int| 0 <= x < cols.len() implies partial_line_spec(
        #[trigger] cols[x],
        h,
        col_of(b, x),
    ) == Some(col_of(b, x)) by {
        let col = col_of(b, x);
        assert(col.len() == h);
        assert(line_determined(col)) by {
            assert forall|y: int| 0 <= y < col.len() implies !((#[trigger] col[y])
                is Undetermined) by {
                assert(col[y] == b[y][x]);
                assert(line_determined(b[y]));
            }
        }
        assert(chunks_repr(col) == rule_ints(cols[x])) by {
            if !(chunks_repr(col) == rule_ints(cols[x])) {
                assert(!(validate_chunks_spec(cols[x], chunks_repr(col)) is Valid));
            }
        }
        lemma_chunks_repr_norm(cols[x], col);
        crate::iterators::lemma_runs_line_fits(cols[x], h, col);
        let lines = all_lines(cols[x], h);
        let pred = |l: Seq<TileState>| crate::iterators::line_compatible(l, col);
        assert(crate::iterators::line_compatible(col, col)) by {
            assert forall|i: int|
                0 <= i < col.len() && i < col.len() implies !crate::game_board::tiles_conflict(
                col[i],
                col[i],
            ) by {}
        }
        Seq::<Seq<TileState>>::lemma_filter_contains(lines, pred, lines.index_of(col));
        assert(lines[lines.index_of(col)] == col);
        let cands = compatible_candidates(lines, col);
        assert(cands.contains(col));
        assert(cands.len() > 0);
        let s = partial_line_spec(cols[x], h, col).unwrap();
        lemma_partial_line_refines(cols[x], h, col, s);
        assert forall|j: int| 0 <= j < h implies s[j] == col[j] by {
            assert(!(col[j] is Undetermined));
        }
        assert(s =~= col);
    }
    assert forall|x: int| 0 <= x < cols.len() implies cols_pass(cols, h, b)[x] == col_of(
        b,
        x,
    ) by {}
    assert forall|y: int| 0 <= y < h implies transpose(cols_pass(cols, h, b), h)[y] == b[y] by {
        assert(transpose(cols_pass(cols, h, b), h)[y] == col_of(cols_pass(cols, h, b), y));
        assert forall|x: int| 0 <= x < cols.len() implies col_of(cols_pass(cols, h, b), y)[x]
            == b[y][x] by {
            assert(col_of(cols_pass(cols, h, b), y)[x] == cols_pass(cols, h, b)[x][y]);
            assert(cols_pass(cols, h, b)[x] == col_of(b, x));
            assert(col_of(b, x)[y] == b[y][x]);
        }
        assert(col_of(cols_pass(cols, h, b), y) =~= b[y]);
    }
    assert(transpose(cols_pass(cols, h, b), h) =~~= b);
}

/// A fully determined board that a column pass leaves unchanged has every
/// column satisfying its rule.
pub proof fn lemma_cols_fixpoint_fits(cols: Seq<Seq<usize>>, h: int, b: Seq<Seq<TileState>>)
    requires
        h >= 0,
        b.len() == h,
        grid(b, cols.len() as int),
        crate::game_board::board_determined(b),
        cols_pass_ok(cols, h, b),
        transpose(cols_pass(cols, h, b), h) == b,
    ensures
        forall|x: int| 0 <= x < cols.len() ==> line_fits(col_of(b, x), #[trigger] cols[x], h),
{
    let cp = cols_pass(cols, h, b);
    assert forall|x: int| 0 <= x < cols.len() implies line_fits(
        col_of(b, x),
        #[trigger] cols[x],
        h,
    ) by {
        assert(partial_line_spec(cols[x], h, col_of(b, x)) is Some);
        assert(cp[x] == partial_line_spec(cols[x], h, col_of(b, x)).unwrap());
        assert(cp[x].len() == h);
        lemma_transpose_col(cp, h, x);
        assert(col_of(transpose(cp, h), x) == cp[x]);
        assert(col_of(b, x) == cp[x]);
        assert(line_determined(col_of(b, x))) by {
            assert forall|y: int| 0 <= y < col_of(b, x).len() implies !((#[trigger] col_of(
                b,
                x,
            )[y]) is Undetermined) by {
                assert(col_of(b, x)[y] == b[y][x]);
                assert(line_determined(b[y]));
            }
        }
        lemma_partial_line_determined_fits(cols[x], h, col_of(b, x), col_of(b, x));
    }
}

/// One full propagation step: a row pass followed by a column pass, or
/// nothing when some line has no compatible placement left.
pub open spec fn prop_step(
    rows: Seq<Seq<usize>>,
    cols: Seq<Seq<usize>>,
    b: Seq<Seq<TileState>>,
) -> Option<Seq<Seq<TileState>>> {
    let w = cols.len() as int;
    let h = rows.len() as int;
    if rows_pass_ok(rows, w, b) && cols_pass_ok(cols, h, rows_pass(rows, w, b)) {
        Some(transpose(cols_pass(cols, h, rows_pass(rows, w, b)), h))
    } else {
        None
    }
}

/// The `n`-th propagation iterate from the all-Undetermined board; nothing
/// from the first failing step on.
pub open spec fn prop_iterate(rows: Seq<Seq<usize>>, cols: Seq<Seq<usize>>, n: nat) -> Option<
    Seq<Seq<TileState>>,
>
    decreases n,
{
    if n == 0 {
        Some(empty_board(cols.len() as int, rows.len() as int))
    } else {
        match prop_iterate(rows, cols, (n - 1) as nat) {
            Some(b) => prop_step(rows, cols, b),
            None => None,
        }
    }
}

/// Some propagation step fails: a line runs out of compatible placements.
pub open spec fn prop_chain_fails(rows: Seq<Seq<usize>>, cols: Seq<Seq<usize>>) -> bool {
    exists|n: nat| prop_iterate(rows, cols, n) is None
}

/// Propagation has converged by step `n`.
pub open spec fn prop_fixpoint_at(rows: Seq<Seq<usize>>, cols: Seq<Seq<usize>>, n: nat) -> bool {
    prop_iterate(rows, cols, n) is Some && prop_iterate(rows, cols, n + 1) == prop_iterate(
        rows,
        cols,
        n,
    )
}

/// Line propagation alone fully determines the puzzle.
pub open spec fn prop_determines(rows: Seq<Seq<usize>>, cols: Seq<Seq<usize>>) -> bool {
    exists|n: nat|
        #[trigger] prop_fixpoint_at(rows, cols, n) && crate::game_board::board_determined(
            prop_iterate(rows, cols, n).unwrap(),
        )
}

/// Line propagation reaches its deductive ceiling: a fixed point with
/// Undetermined cells left.
pub open spec fn prop_stalls(rows: Seq<Seq<usize>>, cols: Seq<Seq<usize>>) -> bool {
    exists|n: nat|
        #[trigger] prop_fixpoint_at(rows, cols, n) && !crate::game_board::board_determined(
            prop_iterate(rows, cols, n).unwrap(),
        )
}

/// A board every line of which is its own line intersection: the line-level
/// form of a propagation fixed point.
pub open spec fn lines_fixed(
    rows: Seq<Seq<usize>>,
    cols: Seq<Seq<usize>>,
    f: Seq<Seq<TileState>>,
) -> bool {
    &&& f.len() == rows.len()
    &&& grid(f, cols.len() as int)
    &&& forall|i: int|
        0 <= i < rows.len() ==> partial_line_spec(#[trigger] rows[i], cols.len() as int, f[i])
            == Some(f[i])
    &&& forall|x: int|
        0 <= x < cols.len() ==> partial_line_spec(#[trigger] cols[x], rows.len() as int, col_of(f, x))
            == Some(col_of(f, x))
}

/// Mutual refinement is equality.
pub(crate) proof fn lemma_refines_antisym(a: Seq<Seq<TileState>>, b: Seq<Seq<TileState>>)
    requires
        board_refines(a, b),
        board_refines(b, a),
    ensures
        a == b,
{
    assert forall|y: int| 0 <= y < a.len() implies a[y] == b[y] by {
        assert(line_refines(a[y], b[y]));
        assert(line_refines(b[y], a[y]));
        assert forall|j: int| 0 <= j < a[y].len() implies a[y][j] == b[y][j] by {
            if !(b[y][j] is Undetermined) {
            } else if !(a[y][j] is Undetermined) {
                assert(b[y][j] == a[y][j]);
            }
        }
        assert(a[y] =~= b[y]);
    }
    assert(a =~~= b);
}

/// A board that one full step leaves unchanged is fixed line by line.
pub(crate) proof fn lemma_step_fix_lines_fixed(
    rows: Seq<Seq<usize>>,
    cols: Seq<Seq<usize>>,
    b: Seq<Seq<TileState>>,
)
    requires
        b.len() == rows.len(),
        grid(b, cols.len() as int),
        prop_step(rows, cols, b) == Some(b),
    ensures
        lines_fixed(rows, cols, b),
{
    let w = cols.len() as int;
    let h = rows.len() as int;
    let mid = rows_pass(rows, w, b);
    lemma_rows_pass_refines(rows, w, b);
    assert(grid(mid, w)) by {
        assert forall|y: int| 0 <= y < mid.len() implies (#[trigger] mid[y]).len() == w by {
            assert(line_refines(mid[y], b[y]));
        }
    }
    lemma_cols_pass_refines(cols, h, mid);
    assert(board_refines(transpose(cols_pass(cols, h, mid), h), mid));
    assert(board_refines(b, mid));
    lemma_refines_antisym(b, mid);
    assert(mid == b);
    assert forall|i: int| 0 <= i < rows.len() implies partial_line_spec(
        #[trigger] rows[i],
        w,
        b[i],
    ) == Some(b[i]) by {
        assert(mid[i] == partial_line_spec(rows[i], w, b[i]).unwrap());
    }
    let cp = cols_pass(cols, h, b);
    assert forall|x: int| 0 <= x < cols.len() implies partial_line_spec(
        #[trigger] cols[x],
        h,
        col_of(b, x),
    ) == Some(col_of(b, x)) by {
        assert(cp[x] == partial_line_spec(cols[x], h, col_of(b, x)).unwrap());
        assert(cp[x].len() == h);
        lemma_transpose_col(cp, h, x);
        assert(col_of(transpose(cp, h), x) == cp[x]);
        assert(transpose(cp, h) == b);
    }
}

/// A line that is its own intersection absorbs the intersection of any less
/// determined line: that intersection exists and stays below the fixed line.
pub(crate) proof fn lemma_line_fixed_absorb(rule: Seq<usize>, width: int, fl: Seq<TileState>, rl: Seq<
    TileState,
>)
    requires
        width >= 0,
        fl.len() == width,
        rl.len() == width,
        partial_line_spec(rule, width, fl) == Some(fl),
        line_refines(fl, rl),
    ensures
        partial_line_spec(rule, width, rl) is Some,
        line_refines(fl, partial_line_spec(rule, width, rl).unwrap()),
{
    let lines = all_lines(rule, width);
    let predf = |l: Seq<TileState>| crate::iterators::line_compatible(l, fl);
    let predr = |l: Seq<TileState>| crate::iterators::line_compatible(l, rl);
    let cf = compatible_candidates(lines, fl);
    let cr = compatible_candidates(lines, rl);
    assert(cf.len() > 0);
    // Every candidate compatible with the fixed line is compatible with the
    // less determined one.
    assert forall|k: int| 0 <= k < cf.len() implies cr.contains(#[trigger] cf[k]) by {
        let c = cf[k];
        assert(lines.filter(predf).contains(c));
        lines.lemma_filter_contains_rev(predf, c);
        Seq::<Seq<TileState>>::lemma_filter_pred(lines, predf, k);
        assert(crate::iterators::line_compatible(c, rl)) by {
            assert forall|j: int|
                0 <= j < c.len() && j < rl.len() implies !crate::game_board::tiles_conflict(
                c[j],
                rl[j],
            ) by {
                if !(rl[j] is Undetermined) {
                    assert(fl[j] == rl[j]);
                    assert(!crate::game_board::tiles_conflict(c[j], fl[j]));
                }
            }
        }
        Seq::<Seq<TileState>>::lemma_filter_contains(lines, predr, lines.index_of(c));
        assert(lines[lines.index_of(c)] == c);
    }
    assert(cr.contains(cf[0]));
    assert(cr.len() > 0);
    let res = partial_line_spec(rule, width, rl).unwrap();
    assert forall|j: int|
        0 <= j < res.len() && !((#[trigger] res[j]) is Undetermined) implies fl[j] == res[j] by {
        assert(res[j] == crate::iterators::consensus_tile(cr, j));
        assert(fl[j] == crate::iterators::consensus_tile(cf, j));
        if res[j] is Filled {
            assert forall|k: int| 0 <= k < cf.len() implies (#[trigger] cf[k])[j] is Filled by {
                assert(cr.contains(cf[k]));
                let k2 = choose|k2: int| 0 <= k2 < cr.len() && cr[k2] == cf[k];
                assert(cr[k2][j] is Filled);
            }
        } else {
            assert(res[j] is Empty);
            assert forall|k: int| 0 <= k < cf.len() implies (#[trigger] cf[k])[j] is Empty by {
                assert(cr.contains(cf[k]));
                let k2 = choose|k2: int| 0 <= k2 < cr.len() && cr[k2] == cf[k];
                assert(cr[k2][j] is Empty);
            }
            if crate::iterators::consensus_tile(cf, j) is Filled {
                assert(cf[0][j] is Filled);
                assert(cf[0][j] is Empty);
            }
        }
    }
}

/// A full step below a line-fixed board succeeds and stays below it.
pub(crate) proof fn lemma_step_below_fixed(
    rows: Seq<Seq<usize>>,
    cols: Seq<Seq<usize>>,
    f: Seq<Seq<TileState>>,
    b: Seq<Seq<TileState>>,
)
    requires
        lines_fixed(rows, cols, f),
        b.len() == rows.len(),
        grid(b, cols.len() as int),
        board_refines(f, b),
    ensures
        prop_step(rows, cols, b) is Some,
        board_refines(f, prop_step(rows, cols, b).unwrap()),
{
    let w = cols.len() as int;
    let h = rows.len() as int;
    assert forall|i: int| 0 <= i < rows.len() implies partial_line_spec(
        #[trigger] rows[i],
        w,
        b[i],
    ) is Some && line_refines(f[i], partial_line_spec(rows[i], w, b[i]).unwrap()) by {
        assert(line_refines(f[i], b[i]));
        lemma_line_fixed_absorb(rows[i], w, f[i], b[i]);
    }
    let mid = rows_pass(rows, w, b);
    assert(board_refines(f, mid)) by {
        assert forall|y: int| 0 <= y < mid.len() implies line_refines(f[y], #[trigger] mid[y]) by {
            assert(mid[y] == partial_line_spec(rows[y], w, b[y]).unwrap());
        }
    }
    assert forall|x: int| 0 <= x < cols.len() implies partial_line_spec(
        #[trigger] cols[x],
        h,
        col_of(mid, x),
    ) is Some && line_refines(
        col_of(f, x),
        partial_line_spec(cols[x], h, col_of(mid, x)).unwrap(),
    ) by {
        assert(col_of(f, x).len() == h);
        assert(col_of(mid, x).len() == h);
        assert(line_refines(col_of(f, x), col_of(mid, x))) by {
            assert forall|y: int|
                0 <= y < h && !((#[trigger] col_of(mid, x)[y]) is Undetermined) implies col_of(
                f,
                x,
            )[y] == col_of(mid, x)[y] by {
                assert(col_of(mid, x)[y] == mid[y][x]);
                assert(line_refines(f[y], mid[y]));
                assert(col_of(f, x)[y] == f[y][x]);
            }
        }
        lemma_line_fixed_absorb(cols[x], h, col_of(f, x), col_of(mid, x));
    }
    let cp = cols_pass(cols, h, mid);
    let out = transpose(cp, h);
    assert(board_refines(f, out)) by {
        assert forall|y: int| 0 <= y < out.len() implies line_refines(f[y], #[trigger] out[y]) by {
            assert(out[y] == col_of(cp, y));
            assert(out[y].len() == cols.len());
            assert(f[y].len() == cols.len());
            assert forall|x: int|
                0 <= x < cols.len() && !((#[trigger] out[y][x]) is Undetermined) implies f[y][x]
                == out[y][x] by {
                assert(out[y][x] == cp[x][y]);
                assert(cp[x] == partial_line_spec(cols[x], h, col_of(mid, x)).unwrap());
                assert(line_refines(col_of(f, x), cp[x]));
                assert(col_of(f, x)[y] == f[y][x]);
            }
        }
    }
}

/// Every propagation iterate has the puzzle's dimensions.
pub(crate) proof fn lemma_iterate_shape(rows: Seq<Seq<usize>>, cols: Seq<Seq<usize>>, n: nat)
    ensures
        prop_iterate(rows, cols, n) matches Some(b) ==> b.len() == rows.len() && grid(
            b,
            cols.len() as int,
        ),
    decreases n,
{
    let w = cols.len() as int;
    let h = rows.len() as int;
    if n == 0 {
    } else {
        lemma_iterate_shape(rows, cols, (n - 1) as nat);
        if prop_iterate(rows, cols, n) is Some {
            let b = prop_iterate(rows, cols, n).unwrap();
            let prev = prop_iterate(rows, cols, (n - 1) as nat).unwrap();
            let cp = cols_pass(cols, h, rows_pass(rows, w, prev));
            assert(b == transpose(cp, h));
            assert forall|y: int| 0 <= y < b.len() implies (#[trigger] b[y]).len() == w by {
                assert(b[y] == col_of(cp, y));
            }
        }
    }
}

/// Below a line-fixed board, no propagation step ever fails and every
/// iterate stays below it.
pub(crate) proof fn lemma_chain_below_fixed(
    rows: Seq<Seq<usize>>,
    cols: Seq<Seq<usize>>,
    f: Seq<Seq<TileState>>,
    n: nat,
)
    requires
        lines_fixed(rows, cols, f),
    ensures
        prop_iterate(rows, cols, n) is Some,
        board_refines(f, prop_iterate(rows, cols, n).unwrap()),
    decreases n,
{
    if n == 0 {
        lemma_empty_board_refines(f, cols.len() as int, rows.len() as int);
    } else {
        lemma_chain_below_fixed(rows, cols, f, (n - 1) as nat);
        lemma_iterate_shape(rows, cols, (n - 1) as nat);
        let prev = prop_iterate(rows, cols, (n - 1) as nat).unwrap();
        lemma_step_below_fixed(rows, cols, f, prev);
    }
}

/// Once a step fails, every later iterate is failed too.
pub(crate) proof fn lemma_chain_none_absorbs(rows: Seq<Seq<usize>>, cols: Seq<Seq<usize>>, m: nat, n: nat)
    requires
        prop_iterate(rows, cols, m) is None,
        m <= n,
    ensures
        prop_iterate(rows, cols, n) is None,
    decreases n - m,
{
    if m < n {
        lemma_chain_none_absorbs(rows, cols, m, (n - 1) as nat);
    }
}

/// From a fixed point on, the chain stays at the same board.
pub(crate) proof fn lemma_chain_fix_propagates(rows: Seq<Seq<usize>>, cols: Seq<Seq<usize>>, n: nat, m: nat)
    requires
        prop_fixpoint_at(rows, cols, n),
        n <= m,
    ensures
        prop_iterate(rows, cols, m) == prop_iterate(rows, cols, n),
    decreases m - n,
{
    if n < m {
        lemma_chain_fix_propagates(rows, cols, n, (m - 1) as nat);
        assert(prop_iterate(rows, cols, m) == prop_iterate(rows, cols, n + 1));
    }
}

/// A chain that reaches a fixed point never fails.
pub(crate) proof fn lemma_fixpoint_no_fail(rows: Seq<Seq<usize>>, cols: Seq<Seq<usize>>, n: nat)
    requires
        prop_fixpoint_at(rows, cols, n),
    ensures
        !prop_chain_fails(rows, cols),
{
    if prop_chain_fails(rows, cols) {
        let m = choose|m: nat| prop_iterate(rows, cols, m) is None;
        if m <= n {
            lemma_chain_none_absorbs(rows, cols, m, n);
        } else {
            lemma_chain_fix_propagates(rows, cols, n, m);
        }
    }
}

/// All fixed points of the chain hold the same board.
pub(crate) proof fn lemma_fixpoint_value_unique(rows: Seq<Seq<usize>>, cols: Seq<Seq<usize>>, n: nat, m: nat)
    requires
        prop_fixpoint_at(rows, cols, n),
        prop_fixpoint_at(rows, cols, m),
    ensures
        prop_iterate(rows, cols, n) == prop_iterate(rows, cols, m),
{
    if n <= m {
        lemma_chain_fix_propagates(rows, cols, n, m);
    } else {
        lemma_chain_fix_propagates(rows, cols, m, n);
    }
}

/// A chain that never fails reaches a fixed point: each non-repeating step
/// strictly reduces the count of Undetermined cells.
pub(crate) proof fn lemma_chain_stabilizes(rows: Seq<Seq<usize>>, cols: Seq<Seq<usize>>, n: nat)
    requires
        prop_iterate(rows, cols, n) is Some,
        !prop_chain_fails(rows, cols),
    ensures
        exists|m: nat| #[trigger] prop_fixpoint_at(rows, cols, m),
    decreases undet_count(prop_iterate(rows, cols, n).unwrap()),
{
    let w = cols.len() as int;
    let h = rows.len() as int;
    let b = prop_iterate(rows, cols, n).unwrap();
    lemma_iterate_shape(rows, cols, n);
    assert(board_refines(b, b));
    lemma_board_refines_count(b, b);
    if prop_iterate(rows, cols, n + 1) is None {
        assert(prop_chain_fails(rows, cols));
    } else {
        let b2 = prop_iterate(rows, cols, n + 1).unwrap();
        assert(prop_iterate(rows, cols, n + 1) == prop_step(rows, cols, b));
        if b2 == b {
            assert(prop_fixpoint_at(rows, cols, n));
        } else {
            let mid = rows_pass(rows, w, b);
            lemma_rows_pass_refines(rows, w, b);
            assert(grid(mid, w)) by {
                assert forall|y: int| 0 <= y < mid.len() implies (#[trigger] mid[y]).len()
                    == w by {
                    assert(line_refines(mid[y], b[y]));
                }
            }
            lemma_cols_pass_refines(cols, h, mid);
            lemma_board_refines_trans(b2, mid, b);
            lemma_board_refines_count(b2, b);
            lemma_chain_stabilizes(rows, cols, n + 1);
        }
    }
}

/// A failing chain has no fixed point of either kind.
pub(crate) proof fn lemma_fails_excludes_fixpoints(rows: Seq<Seq<usize>>, cols: Seq<Seq<usize>>)
    requires
        prop_chain_fails(rows, cols),
    ensures
        !prop_determines(rows, cols),
        !prop_stalls(rows, cols),
{
    if prop_determines(rows, cols) {
        let n = choose|n: nat|
            #[trigger] prop_fixpoint_at(rows, cols, n) && crate::game_board::board_determined(
                prop_iterate(rows, cols, n).unwrap(),
            );
        lemma_fixpoint_no_fail(rows, cols, n);
    }
    if prop_stalls(rows, cols) {
        let n = choose|n: nat|
            #[trigger] prop_fixpoint_at(rows, cols, n) && !crate::game_board::board_determined(
                prop_iterate(rows, cols, n).unwrap(),
            );
        lemma_fixpoint_no_fail(rows, cols, n);
    }
}

/// A fully determined fixed point of one row pass followed by one column
/// pass is a genuine solution: every row and column satisfies its rule.
pub proof fn lemma_fixpoint_solution(
    rows: Seq<Seq<usize>>,
    cols: Seq<Seq<usize>>,
    b: Seq<Seq<TileState>>,
)
    requires
        b.len() == rows.len(),
        grid(b, cols.len() as int),
        crate::game_board::board_determined(b),
        rows_pass_ok(rows, cols.len() as int, b),
        cols_pass_ok(cols, rows.len() as int, rows_pass(rows, cols.len() as int, b)),
        transpose(
            cols_pass(cols, rows.len() as int, rows_pass(rows, cols.len() as int, b)),
            rows.len() as int,
        ) == b,
    ensures
        is_solution(rows, cols, b),
{
    let w = cols.len() as int;
    let h = rows.len() as int;
    let mid = rows_pass(rows, w, b);
    lemma_rows_pass_refines(rows, w, b);
    assert(mid == b) by {
        assert forall|y: int| 0 <= y < h implies mid[y] == b[y] by {
            assert(line_refines(mid[y], b[y]));
            assert(line_determined(b[y]));
            assert forall|j: int| 0 <= j < b[y].len() implies mid[y][j] == b[y][j] by {
                assert(!(b[y][j] is Undetermined));
            }
            assert(mid[y] =~= b[y]);
        }
        assert(mid =~~= b);
    }
    assert forall|i: int| 0 <= i < rows.len() implies line_fits(
        #[trigger] b[i],
        rows[i],
        w,
    ) by {
        assert(partial_line_spec(rows[i], w, b[i]) is Some);
        assert(mid[i] == partial_line_spec(rows[i], w, b[i]).unwrap());
        assert(line_determined(b[i]));
        lemma_partial_line_determined_fits(rows[i], w, b[i], b[i]);
    }
    let cp = cols_pass(cols, h, b);
    assert(cols_pass_ok(cols, h, b));
    assert forall|x: int| 0 <= x < cols.len() implies line_fits(
        col_of(b, x),
        #[trigger] cols[x],
        h,
    ) by {
        assert(partial_line_spec(cols[x], h, col_of(b, x)) is Some);
        assert(cp[x] == partial_line_spec(cols[x], h, col_of(b, x)).unwrap());
        assert(cp[x].len() == h);
        lemma_transpose_col(cp, h, x);
        assert(col_of(transpose(cp, h), x) == cp[x]);
        assert(transpose(cp, h) == b);
        assert(col_of(b, x) == cp[x]);
        assert(line_determined(col_of(b, x))) by {
            assert forall|y: int| 0 <= y < col_of(b, x).len() implies !((#[trigger] col_of(
                b,
                x,
            )[y]) is Undetermined) by {
                assert(col_of(b, x)[y] == b[y][x]);
                assert(line_determined(b[y]));
            }
        }
        lemma_partial_line_determined_fits(cols[x], h, col_of(b, x), col_of(b, x));
    }
}

impl LineRule {
    /// A copy of the rule with the same run lengths.
    pub fn duplicate(&self) -> (r: Self)
        ensures
            r@ == self@,
    {
        LineRule(crate::iterators::copy_usizes(&self.0))
    }
}

impl AxisRules {
    /// A copy of the axis with the same rules.
    pub fn duplicate(&self) -> (r: Self)
        ensures
            r@ == self@,
    {
        let mut rules: Vec<LineRule> = Vec::new();
        let mut i: usize = 0;
        while i < self.0.len()
            invariant
                0 <= i <= self.0.len(),
                rules@.len() == i,
                forall|j: int| 0 <= j < i ==> (#[trigger] rules@[j])@ == self.0@[j]@,
            decreases self.0.len() - i,
        {
            rules.push(self.0[i].duplicate());
            i += 1;
        }
        let axis = AxisRules(rules);
        proof {
            assert(axis@ =~~= self@);
        }
        axis
    }
}

impl PicrossGame {
    /// A copy of the puzzle with the same rules.
    pub fn duplicate(&self) -> (r: Self)
        ensures
            r.rows@ == self.rows@,
            r.columns@ == self.columns@,
    {
        PicrossGame { rows: self.rows.duplicate(), columns: self.columns.duplicate() }
    }
}

// ---------------------------------------------------------------------------
// Progress measure for the propagation solvers
// ---------------------------------------------------------------------------

/// How many cells of the line are still Undetermined.
pub open spec fn undet_in_line(l: Seq<TileState>) -> int
    decreases l.len(),
{
    if l.len() == 0 {
        0
    } else {
        (if l[0] is Undetermined {
            1int
        } else {
            0int
        }) + undet_in_line(l.drop_first())
    }
}

/// How many cells of the board are still Undetermined.
pub open spec fn undet_count(b: Seq<Seq<TileState>>) -> int
    decreases b.len(),
{
    if b.len() == 0 {
        0
    } else {
        undet_in_line(b[0]) + undet_count(b.drop_first())
    }
}

/// `a` refines `b`: wherever `b` is determined, `a` agrees with it.
pub open spec fn line_refines(a: Seq<TileState>, b: Seq<TileState>) -> bool {
    a.len() == b.len() && forall|j: int|
        0 <= j < b.len() && !((#[trigger] b[j]) is Undetermined) ==> a[j] == b[j]
}

pub open spec fn board_refines(a: Seq<Seq<TileState>>, b: Seq<Seq<TileState>>) -> bool {
    a.len() == b.len() && forall|y: int| 0 <= y < b.len() ==> line_refines(#[trigger] a[y], b[y])
}

proof fn lemma_undet_in_line_nonneg(l: Seq<TileState>)
    ensures
        undet_in_line(l) >= 0,
    decreases l.len(),
{
    if l.len() > 0 {
        lemma_undet_in_line_nonneg(l.drop_first());
    }
}

/// Refining a line never adds Undetermined cells, and strictly removes one
/// whenever the lines differ.
proof fn lemma_line_refines_count(a: Seq<TileState>, b: Seq<TileState>)
    requires
        line_refines(a, b),
    ensures
        undet_in_line(a) <= undet_in_line(b),
        a != b ==> undet_in_line(a) < undet_in_line(b),
    decreases a.len(),
{
    if a.len() == 0 {
        assert(a =~= b);
    } else {
        let at = a.drop_first();
        let bt = b.drop_first();
        assert(forall|j: int| 0 <= j < at.len() ==> at[j] == a[j + 1]);
        assert(forall|j: int| 0 <= j < bt.len() ==> bt[j] == b[j + 1]);
        assert(line_refines(at, bt));
        lemma_line_refines_count(at, bt);
        if a != b {
            if a[0] == b[0] {
                assert(at != bt) by {
                    if at == bt {
                        assert forall|j: int| 0 <= j < a.len() implies a[j] == b[j] by {
                            if j > 0 {
                                assert(a[j] == at[j - 1]);
                                assert(b[j] == bt[j - 1]);
                            }
                        }
                        assert(a =~= b);
                    }
                }
            } else {
                assert(b[0] is Undetermined);
                assert(!(a[0] is Undetermined) || a[0] == b[0]) by {
                    if a[0] is Undetermined && b[0] is Undetermined {
                        assert(a[0] == b[0]);
                    }
                }
            }
        }
    }
}

/// Refining a board never adds Undetermined cells, and strictly removes one
/// whenever the boards differ.
pub proof fn lemma_board_refines_count(a: Seq<Seq<TileState>>, b: Seq<Seq<TileState>>)
    requires
        board_refines(a, b),
    ensures
        undet_count(a) <= undet_count(b),
        a != b ==> undet_count(a) < undet_count(b),
        undet_count(a) >= 0,
    decreases a.len(),
{
    if a.len() == 0 {
        assert(a =~~= b);
    } else {
        let at = a.drop_first();
        let bt = b.drop_first();
        assert(forall|j: int| 0 <= j < at.len() ==> at[j] == a[j + 1]);
        assert(forall|j: int| 0 <= j < bt.len() ==> bt[j] == b[j + 1]);
        assert(board_refines(at, bt)) by {
            assert forall|y: int| 0 <= y < bt.len() implies line_refines(
                #[trigger] at[y],
                bt[y],
            ) by {
                assert(at[y] == a[y + 1]);
                assert(line_refines(a[y + 1], b[y + 1]));
            }
        }
        lemma_board_refines_count(at, bt);
        assert(line_refines(a[0], b[0]));
        lemma_line_refines_count(a[0], b[0]);
        lemma_undet_in_line_nonneg(a[0]);
        if a != b {
            if a[0] == b[0] {
                assert(at != bt) by {
                    if at == bt {
                        assert forall|y: int| 0 <= y < a.len() implies a[y] == b[y] by {
                            if y > 0 {
                                assert(a[y] == at[y - 1]);
                                assert(b[y] == bt[y - 1]);
                            }
                        }
                        assert(a =~~= b);
                    }
                }
            }
        }
    }
}

/// Refinement is transitive.
pub proof fn lemma_board_refines_trans(
    a: Seq<Seq<TileState>>,
    b: Seq<Seq<TileState>>,
    c: Seq<Seq<TileState>>,
)
    requires
        board_refines(a, b),
        board_refines(b, c),
    ensures
        board_refines(a, c),
{
    assert forall|y: int| 0 <= y < c.len() implies line_refines(#[trigger] a[y], c[y]) by {
        assert(line_refines(a[y], b[y]));
        assert(line_refines(b[y], c[y]));
        assert forall|j: int|
            0 <= j < c[y].len() && !((#[trigger] c[y][j]) is Undetermined) implies a[y][j]
            == c[y][j] by {
            assert(b[y][j] == c[y][j]);
            assert(a[y][j] == b[y][j]);
        }
    }
}

/// A row-intersection pass refines the board it reads.
pub proof fn lemma_rows_pass_refines(
    rows: Seq<Seq<usize>>,
    width: int,
    b: Seq<Seq<TileState>>,
)
    requires
        width >= 0,
        b.len() == rows.len(),
        grid(b, width),
        rows_pass_ok(rows, width, b),
    ensures
        board_refines(rows_pass(rows, width, b), b),
{
    let m = rows_pass(rows, width, b);
    assert forall|y: int| 0 <= y < b.len() implies line_refines(#[trigger] m[y], b[y]) by {
        assert(partial_line_spec(rows[y], width, b[y]) is Some);
        lemma_partial_line_refines(rows[y], width, b[y], m[y]);
    }
}

/// A column-intersection pass refines the board it reads.
pub proof fn lemma_cols_pass_refines(
    cols: Seq<Seq<usize>>,
    height: int,
    b: Seq<Seq<TileState>>,
)
    requires
        height >= 0,
        b.len() == height,
        grid(b, cols.len() as int),
        cols_pass_ok(cols, height, b),
    ensures
        board_refines(transpose(cols_pass(cols, height, b), height), b),
{
    let cp = cols_pass(cols, height, b);
    let out = transpose(cp, height);
    assert forall|y: int| 0 <= y < b.len() implies line_refines(#[trigger] out[y], b[y]) by {
        assert(out[y] == col_of(cp, y));
        assert(out[y].len() == cols.len());
        assert forall|x: int|
            0 <= x < b[y].len() && !((#[trigger] b[y][x]) is Undetermined) implies out[y][x]
            == b[y][x] by {
            assert(partial_line_spec(cols[x], height, col_of(b, x)) is Some);
            lemma_partial_line_refines(cols[x], height, col_of(b, x), cp[x]);
            assert(col_of(b, x)[y] == b[y][x]);
            assert(cp[x][y] == col_of(b, x)[y]);
            assert(out[y][x] == cp[x][y]);
        }
    }
}

/// The first `i` entries of `out` are exactly the row intersections of the
/// first `i` row rules against the reference board.
pub open spec fn rows_prefix_ok(
    rows: Seq<Seq<usize>>,
    width: int,
    refb: Seq<Seq<TileState>>,
    out: Seq<GameBoardRow>,
    i: int,
) -> bool {
    &&& forall|t: int|
        0 <= t < i ==> partial_line_spec(rows[t], width, #[trigger] refb[t]) is Some
    &&& forall|t: int|
        0 <= t < i ==> (#[trigger] out[t])@ == partial_line_spec(rows[t], width, refb[t]).unwrap()
}

/// The first `x` entries of `out` are exactly the column intersections of
/// the first `x` column rules against the reference board.
pub open spec fn cols_prefix_ok(
    cols: Seq<Seq<usize>>,
    height: int,
    refb: Seq<Seq<TileState>>,
    out: Seq<GameBoardRow>,
    x: int,
) -> bool {
    &&& forall|t: int|
        0 <= t < x ==> partial_line_spec(#[trigger] cols[t], height, col_of(refb, t)) is Some
    &&& forall|t: int|
        0 <= t < x ==> (#[trigger] out[t])@ == partial_line_spec(
            cols[t],
            height,
            col_of(refb, t),
        ).unwrap() && out[t]@.len() == height
}

impl PicrossGame {
    /// Intersect the placements of every row rule against the matching row
    /// of the reference board (all Undetermined by default); fails with a
    /// contradiction when some row has no compatible placement left.
    #[verifier::rlimit(60)]
    pub fn get_partial_board_from_rows(&self, reference_board: Option<GameBoard>) -> (r: Result<
        GameBoard,
        PicrossError,
    >)
        requires
            reference_board matches Some(rb) ==> rb@.len() == self.rows@.len() && grid(
                rb@,
                self.columns@.len() as int,
            ),
        ensures
            ({
                let w = self.columns@.len() as int;
                let refb = match reference_board {
                    Some(rb) => rb@,
                    None => empty_board(w, self.rows@.len() as int),
                };
                match r {
                    Ok(out) => rows_pass_ok(self.rows@, w, refb) && out@ == rows_pass(
                        self.rows@,
                        w,
                        refb,
                    ),
                    Err(e) => e == PicrossError::Contradiction && !rows_pass_ok(
                        self.rows@,
                        w,
                        refb,
                    ),
                }
            }),
    {
        let w = self.width();
        let h = self.height();
        let base = match reference_board {
            Some(b) => b,
            None => GameBoard::new(w, h),
        };
        let ghost refb = base@;
        proof {
            assert(grid(refb, self.columns@.len() as int));
            assert(refb.len() == self.rows@.len());
        }
        let mut out_rows: Vec<GameBoardRow> = Vec::new();
        let mut i: usize = 0;
        while i < h
            invariant
                0 <= i <= h,
                h == self.rows@.len(),
                w == self.columns@.len(),
                self.rows@.len() == self.rows.0@.len(),
                refb == base@,
                refb == (match reference_board {
                    Some(rb) => rb@,
                    None => empty_board(w as int, h as int),
                }),
                refb.len() == h,
                grid(refb, w as int),
                out_rows@.len() == i,
                rows_prefix_ok(self.rows@, w as int, refb, out_rows@, i as int),
            decreases h - i,
        {
            proof {
                assert(self.rows@[i as int] == self.rows.0@[i as int]@);
                assert(base@[i as int] == base.0@[i as int]@);
                assert(base@[i as int].len() == w);
            }
            let chunks = crate::iterators::copy_usizes(&self.rows.0[i].0);
            let mut line_iter = PicrossLineIter::new(chunks, w);
            let ghost rem0 = line_iter.remaining();
            proof {
                assert(rem0 == all_lines(self.rows@[i as int], w as int));
            }
            match line_iter.get_partially_solved_line(Some(&base.0[i])) {
                Ok(row) => {
                    proof {
                        let refl = base.0@[i as int]@;
                        let cands = compatible_candidates(rem0, refl);
                        assert(cands.len() > 0);
                        assert(row@ == consensus_line(cands, w as int));
                        assert(refl == refb[i as int]);
                        assert(partial_line_spec(self.rows@[i as int], w as int, refb[i as int])
                            is Some);
                        assert(partial_line_spec(
                            self.rows@[i as int],
                            w as int,
                            refb[i as int],
                        ).unwrap() == row@);
                    }
                    let ghost pre = out_rows@;
                    let ghost rowv = row@;
                    out_rows.push(row);
                    proof {
                        assert forall|t: int| 0 <= t < i + 1 implies partial_line_spec(
                            self.rows@[t],
                            w as int,
                            #[trigger] refb[t],
                        ) is Some by {}
                        assert forall|t: int| 0 <= t < i + 1 implies (#[trigger] out_rows@[t])@
                            == partial_line_spec(self.rows@[t], w as int, refb[t]).unwrap() by {
                            if t < i {
                                assert(out_rows@[t] == pre[t]);
                            } else {
                                assert(out_rows@[t]@ == rowv);
                            }
                        }
                        assert(rows_prefix_ok(self.rows@, w as int, refb, out_rows@, i + 1));
                    }
                },
                Err(_) => {
                    proof {
                        assert(partial_line_spec(self.rows@[i as int], w as int, refb[i as int]) is None);
                    }
                    return Err(PicrossError::Contradiction);
                },
            }
            i += 1;
        }
        let out = GameBoard(out_rows);
        proof {
            assert forall|t: int| 0 <= t < h implies out@[t] == rows_pass(
                self.rows@,
                w as int,
                refb,
            )[t] by {
                assert(out@[t] == out_rows@[t]@);
            }
            assert(out@ =~= rows_pass(self.rows@, w as int, refb));
        }
        Ok(out)
    }

    /// Intersect the placements of every column rule against the matching
    /// column of the reference board (all Undetermined by default); fails
    /// with a contradiction when some column has no compatible placement.
    #[verifier::rlimit(60)]
    pub fn get_partial_board_from_columns(&self, reference_board: Option<GameBoard>) -> (r: Result<
        GameBoard,
        PicrossError,
    >)
        requires
            reference_board matches Some(rb) ==> rb@.len() == self.rows@.len() && grid(
                rb@,
                self.columns@.len() as int,
            ),
        ensures
            ({
                let w = self.columns@.len() as int;
                let h = self.rows@.len() as int;
                let refb = match reference_board {
                    Some(rb) => rb@,
                    None => empty_board(w, h),
                };
                match r {
                    Ok(out) => cols_pass_ok(self.columns@, h, refb) && out@ == transpose(
                        cols_pass(self.columns@, h, refb),
                        h,
                    ),
                    Err(e) => e == PicrossError::Contradiction && !cols_pass_ok(
                        self.columns@,
                        h,
                        refb,
                    ),
                }
            }),
    {
        let w = self.width();
        let h = self.height();
        let base = match reference_board {
            Some(b) => b,
            None => GameBoard::new(w, h),
        };
        let ghost refb = base@;
        proof {
            assert(grid(refb, w as int));
            assert(refb.len() == h);
        }
        let mut solved_cols: Vec<GameBoardRow> = Vec::new();
        let mut x: usize = 0;
        while x < w
            invariant
                0 <= x <= w,
                h == self.rows@.len(),
                w == self.columns@.len(),
                self.columns@.len() == self.columns.0@.len(),
                refb == base@,
                refb == (match reference_board {
                    Some(rb) => rb@,
                    None => empty_board(w as int, h as int),
                }),
                refb.len() == h,
                grid(refb, w as int),
                solved_cols@.len() == x,
                cols_prefix_ok(self.columns@, h as int, refb, solved_cols@, x as int),
            decreases w - x,
        {
            proof {
                assert(self.columns@[x as int] == self.columns.0@[x as int]@);
            }
            let col = GameBoardRow(base.get_column(x));
            proof {
                assert(col@ == col_of(refb, x as int));
                assert(col@.len() == h);
            }
            let chunks = crate::iterators::copy_usizes(&self.columns.0[x].0);
            let mut line_iter = PicrossLineIter::new(chunks, h);
            match line_iter.get_partially_solved_line(Some(&col)) {
                Ok(solved) => {
                    proof {
                        assert(solved@.len() == h);
                        assert(partial_line_spec(
                            self.columns@[x as int],
                            h as int,
                            col_of(refb, x as int),
                        ) is Some);
                        assert(partial_line_spec(
                            self.columns@[x as int],
                            h as int,
                            col_of(refb, x as int),
                        ).unwrap() == solved@);
                    }
                    let ghost pre = solved_cols@;
                    let ghost solvedv = solved@;
                    solved_cols.push(solved);
                    proof {
                        assert forall|t: int| 0 <= t < x + 1 implies partial_line_spec(
                            #[trigger] self.columns@[t],
                            h as int,
                            col_of(refb, t),
                        ) is Some by {}
                        assert forall|t: int| 0 <= t < x + 1 implies (#[trigger] solved_cols@[t])@
                            == partial_line_spec(
                            self.columns@[t],
                            h as int,
                            col_of(refb, t),
                        ).unwrap() && solved_cols@[t]@.len() == h by {
                            if t < x {
                                assert(solved_cols@[t] == pre[t]);
                            } else {
                                assert(solved_cols@[t]@ == solvedv);
                            }
                        }
                        assert(cols_prefix_ok(self.columns@, h as int, refb, solved_cols@, x + 1));
                    }
                },
                Err(_) => {
                    proof {
                        assert(partial_line_spec(
                            self.columns@[x as int],
                            h as int,
                            col_of(refb, x as int),
                        ) is None);
                    }
                    return Err(PicrossError::Contradiction);
                },
            }
            x += 1;
        }
        let ghost cp = cols_pass(self.columns@, h as int, refb);
        proof {
            assert(cols_prefix_ok(self.columns@, h as int, refb, solved_cols@, w as int));
            assert forall|t: int| 0 <= t < cp.len() implies solved_cols@.map_values(
                |r: GameBoardRow| r@,
            )[t] == cp[t] by {
                assert(solved_cols@.map_values(|r: GameBoardRow| r@)[t] == solved_cols@[t]@);
            }
            assert(solved_cols@.map_values(|r: GameBoardRow| r@) =~= cp);
        }
        let mut out_rows: Vec<GameBoardRow> = Vec::new();
        let mut y: usize = 0;
        while y < h
            invariant
                0 <= y <= h,
                h == self.rows@.len(),
                w == self.columns@.len(),
                solved_cols@.len() == w,
                refb == (match reference_board {
                    Some(rb) => rb@,
                    None => empty_board(w as int, h as int),
                }),
                cols_pass_ok(self.columns@, h as int, refb),
                cp == cols_pass(self.columns@, h as int, refb),
                cp == solved_cols@.map_values(|r: GameBoardRow| r@),
                forall|t: int| 0 <= t < w ==> (#[trigger] solved_cols@[t])@.len() == h,
                out_rows@.len() == y,
                forall|t: int| 0 <= t < y ==> (#[trigger] out_rows@[t])@ == col_of(cp, t),
            decreases h - y,
        {
            let mut row: Vec<TileState> = Vec::new();
            let mut x2: usize = 0;
            while x2 < solved_cols.len()
                invariant
                    0 <= x2 <= solved_cols@.len(),
                    0 <= y < h,
                    forall|t: int| 0 <= t < solved_cols@.len() ==> (#[trigger] solved_cols@[t])@.len() == h,
                    row@.len() == x2,
                    forall|t: int| 0 <= t < x2 ==> row@[t] == solved_cols@[t]@[y as int],
                decreases solved_cols@.len() - x2,
            {
                row.push(solved_cols[x2].0[y]);
                x2 += 1;
            }
            proof {
                assert forall|t: int| 0 <= t < row@.len() implies row@[t] == col_of(
                    cp,
                    y as int,
                )[t] by {
                    assert(cp[t] == solved_cols@[t]@);
                }
                assert(row@ =~= col_of(cp, y as int));
            }
            out_rows.push(GameBoardRow(row));
            y += 1;
        }
        let out = GameBoard(out_rows);
        proof {
            assert(out@ =~~= transpose(cp, h as int));
        }
        Ok(out)
    }
}

impl Default for PicrossGame {
    /// The trivial one-by-one puzzle without filled cells.
    fn default() -> (r: Self)
        ensures
            r.rows@ == seq![seq![0usize]],
            r.columns@ == seq![seq![0usize]],
            r.wf(),
    {
        let mut row_vals: Vec<usize> = Vec::new();
        row_vals.push(0);
        let mut col_vals: Vec<usize> = Vec::new();
        col_vals.push(0);
        let mut row_rules: Vec<LineRule> = Vec::new();
        row_rules.push(LineRule(row_vals));
        let mut col_rules: Vec<LineRule> = Vec::new();
        col_rules.push(LineRule(col_vals));
        let g = PicrossGame { rows: AxisRules(row_rules), columns: AxisRules(col_rules) };
        proof {
            assert(g.rows@ =~= seq![seq![0usize]]);
            assert(g.columns@ =~= seq![seq![0usize]]);
            assert(g.rows@[0] =~= seq![0usize]);
            assert(rule_wf(g.rows@[0]));
            assert(sum_axis(g.rows@) == sum_rule(seq![0usize]) + sum_axis(g.rows@.drop_first()));
            assert(g.rows@.drop_first() =~= Seq::<Seq<usize>>::empty());
            assert(seq![0usize].drop_first() =~= Seq::<usize>::empty());
        }
        g
    }
}

} // verus!
