use vstd::prelude::*;

use crate::error::PicrossError;
use crate::game_board::{
    lemma_runs_from_head, line_of_segments, runs_from, rule_ints, seg_covers, tiles_conflict,
    GameBoardRow, Segment, TileState,
};

verus! {

/// Every way to place the runs `chunks`, in order, into positions
/// `index..width`, with at least one empty cell between consecutive runs.
/// Placements are ordered by the position of the first run, leftmost first.
pub open spec fn placements(chunks: Seq<usize>, index: int, width: int) -> Seq<Seq<Segment>>
    decreases chunks.len(), width - index,
{
    if chunks.len() == 0 {
        seq![Seq::<Segment>::empty()]
    } else if index < 0 || index >= width || index + chunks[0] > width {
        Seq::<Seq<Segment>>::empty()
    } else {
        placements(chunks.drop_first(), index + chunks[0] + 1, width).map_values(
            |p: Seq<Segment>| seq![Segment { length: chunks[0], index: index as usize }] + p,
        ) + placements(chunks, index + 1, width)
    }
}

/// The lines materialized from all placements of `chunks` into
/// `index..width`, each on top of the already placed segments `placed`.
pub open spec fn lines_for(
    chunks: Seq<usize>,
    index: int,
    width: int,
    placed: Seq<Segment>,
) -> Seq<Seq<TileState>> {
    placements(chunks, index, width).map_values(
        |p: Seq<Segment>| line_of_segments(placed + p, width),
    )
}

/// The number of nodes of the depth-first expansion tree rooted at a frame
/// whose runs `chunks` still have to be placed into `index..width`. Serves
/// as the termination measure of the enumerator.
spec fn node_size(chunks: Seq<usize>, index: int, width: int) -> int
    decreases chunks.len(), width - index,
{
    if chunks.len() == 0 {
        1
    } else if index < 0 || index >= width || index + chunks[0] > width {
        1
    } else {
        node_size(chunks.drop_first(), index + chunks[0] + 1, width) + node_size(
            chunks,
            index + 1,
            width,
        )
    }
}

proof fn lemma_node_size_pos(chunks: Seq<usize>, index: int, width: int)
    ensures
        node_size(chunks, index, width) >= 1,
    decreases chunks.len(), width - index,
{
    if chunks.len() == 0 {
    } else if index < 0 || index >= width || index + chunks[0] > width {
    } else {
        lemma_node_size_pos(chunks.drop_first(), index + chunks[0] + 1, width);
        lemma_node_size_pos(chunks, index + 1, width);
    }
}

spec fn stack_sizes(stack: Seq<RowIterFrame>, width: int) -> int
    decreases stack.len(),
{
    if stack.len() == 0 {
        0
    } else {
        node_size(
            stack.last().remaining_chunks@,
            stack.last().index as int,
            width,
        ) + stack_sizes(stack.drop_last(), width)
    }
}

proof fn lemma_stack_sizes_nonneg(stack: Seq<RowIterFrame>, width: int)
    ensures
        stack_sizes(stack, width) >= 0,
    decreases stack.len(),
{
    if stack.len() > 0 {
        lemma_node_size_pos(
            stack.last().remaining_chunks@,
            stack.last().index as int,
            width,
        );
        lemma_stack_sizes_nonneg(stack.drop_last(), width);
    }
}

/// A rule with its degenerate zero runs dropped: the rule `[0]` denotes a
/// line without filled cells and places no segment at all.
pub open spec fn normalize_rule(rule: Seq<usize>) -> Seq<usize> {
    rule.filter(|v: usize| v > 0)
}

/// Every line of length `width` that satisfies the run constraint `rule`,
/// ordered with the leftmost placements first.
pub open spec fn all_lines(rule: Seq<usize>, width: int) -> Seq<Seq<TileState>> {
    lines_for(normalize_rule(rule), 0, width, Seq::empty())
}

/// The total of the run lengths of a rule.
pub open spec fn sum_rule(rule: Seq<usize>) -> int
    decreases rule.len(),
{
    if rule.len() == 0 {
        0
    } else {
        rule[0] + sum_rule(rule.drop_first())
    }
}

/// The binomial coefficient, via Pascal's rule: `binom(n, k)` counts the
/// k-element subsets of an n-element set, and is zero for `n < k`.
pub open spec fn binom(n: int, k: nat) -> int
    decreases k, n,
{
    if k == 0 {
        1
    } else if n <= 0 {
        0
    } else {
        binom(n - 1, (k - 1) as nat) + binom(n - 1, k)
    }
}

proof fn lemma_sum_rule_at_least_len(rule: Seq<usize>)
    requires
        forall|t: int| 0 <= t < rule.len() ==> rule[t] > 0,
    ensures
        sum_rule(rule) >= rule.len(),
    decreases rule.len(),
{
    if rule.len() > 0 {
        assert(forall|t: int| 0 <= t < rule.drop_first().len() ==> rule.drop_first()[t] == rule[t
            + 1]);
        lemma_sum_rule_at_least_len(rule.drop_first());
    }
}

proof fn lemma_placements_count(chunks: Seq<usize>, index: int, width: int)
    requires
        index >= 0,
        forall|t: int| 0 <= t < chunks.len() ==> chunks[t] > 0,
    ensures
        placements(chunks, index, width).len() == binom(
            width - index - sum_rule(chunks) + 1,
            chunks.len(),
        ),
    decreases chunks.len(), width - index,
{
    let n = width - index - sum_rule(chunks) + 1;
    let k = chunks.len();
    if chunks.len() == 0 {
    } else if index >= width || index + chunks[0] > width {
        lemma_sum_rule_at_least_len(chunks.drop_first());
        assert(forall|t: int| 0 <= t < chunks.drop_first().len() ==> chunks.drop_first()[t]
            == chunks[t + 1]);
        assert(sum_rule(chunks) == chunks[0] + sum_rule(chunks.drop_first()));
        assert(n <= 0);
        assert(binom(n, k) == 0);
    } else {
        let rest = chunks.drop_first();
        assert(forall|t: int| 0 <= t < rest.len() ==> rest[t] == chunks[t + 1]);
        lemma_placements_count(rest, index + chunks[0] + 1, width);
        lemma_placements_count(chunks, index + 1, width);
        assert(sum_rule(chunks) == chunks[0] + sum_rule(rest));
        let first = placements(rest, index + chunks[0] + 1, width).map_values(
            |p: Seq<Segment>| seq![Segment { length: chunks[0], index: index as usize }] + p,
        );
        assert(first.len() == binom(n - 1, (k - 1) as nat));
        assert(placements(chunks, index + 1, width).len() == binom(n - 1, k));
        if n <= 0 {
            lemma_sum_rule_at_least_len(rest);
            assert(k >= 2) by {
                if k == 1 {
                    assert(sum_rule(chunks) == chunks[0]);
                    assert(n >= 1);
                }
            }
            assert(binom(n - 1, (k - 1) as nat) == 0);
            assert(binom(n - 1, k) == 0);
            assert(binom(n, k) == 0);
        } else {
            assert(binom(n, k) == binom(n - 1, (k - 1) as nat) + binom(n - 1, k));
        }
    }
}

pub(crate) proof fn lemma_normalize_positive_identity(rule: Seq<usize>)
    requires
        forall|t: int| 0 <= t < rule.len() ==> rule[t] > 0,
    ensures
        normalize_rule(rule) == rule,
    decreases rule.len(),
{
    reveal_with_fuel(Seq::filter, 2);
    if rule.len() == 0 {
        assert(rule.filter(|v: usize| v > 0) =~= rule);
    } else {
        assert(forall|t: int| 0 <= t < rule.drop_last().len() ==> rule.drop_last()[t] == rule[t]);
        lemma_normalize_positive_identity(rule.drop_last());
        assert(rule.filter(|v: usize| v > 0) =~= rule.drop_last().push(rule.last()));
        assert(rule.drop_last().push(rule.last()) =~= rule);
    }
}

/// Counting law of the generator: a constraint of `k` positive runs summing
/// to `s` has exactly `binom(w - s + 1, k)` placements in a line of width
/// `w` — zero when it does not fit — and the degenerate constraint `[0]`
/// yields exactly one line, the all-Empty one.
pub proof fn lemma_generator_count(rule: Seq<usize>, width: int)
    ensures
        (forall|t: int| 0 <= t < rule.len() ==> rule[t] > 0) ==> all_lines(rule, width).len()
            == binom(width - sum_rule(rule) + 1, rule.len()),
        rule == seq![0usize] ==> all_lines(rule, width) == seq![
            line_of_segments(Seq::<Segment>::empty(), width),
        ],
{
    if forall|t: int| 0 <= t < rule.len() ==> rule[t] > 0 {
        lemma_normalize_positive_identity(rule);
        lemma_placements_count(rule, 0, width);
    }
    if rule == seq![0usize] {
        reveal_with_fuel(Seq::filter, 3);
        assert(normalize_rule(rule) =~= Seq::<usize>::empty()) by {
            assert(rule.drop_last() =~= Seq::<usize>::empty());
            assert(rule.last() == 0usize);
            assert(Seq::<usize>::empty().filter(|v: usize| v > 0) =~= Seq::<usize>::empty());
        }
        assert(placements(Seq::<usize>::empty(), 0, width) =~= seq![Seq::<Segment>::empty()]);
        assert(all_lines(rule, width) =~= seq![
            line_of_segments(Seq::<Segment>::empty() + Seq::<Segment>::empty(), width),
        ]);
        assert(Seq::<Segment>::empty() + Seq::<Segment>::empty() =~= Seq::<Segment>::empty());
    }
}

/// Every line the generator enumerates is fully determined and has exactly
/// the width it was generated for.
pub proof fn lemma_all_lines_shape(rule: Seq<usize>, width: int, l: Seq<TileState>)
    requires
        width >= 0,
        all_lines(rule, width).contains(l),
    ensures
        l.len() == width,
        crate::game_board::line_determined(l),
{
    let lines = all_lines(rule, width);
    let i = choose|i: int| 0 <= i < lines.len() && lines[i] == l;
    let p = placements(normalize_rule(rule), 0, width)[i];
    assert(lines[i] == line_of_segments(Seq::<Segment>::empty() + p, width));
    assert(l.len() == width);
    assert forall|j: int| 0 <= j < l.len() implies !((#[trigger] l[j]) is Undetermined) by {
        assert(l[j] == line_of_segments(Seq::<Segment>::empty() + p, width)[j]);
    }
}

// ---------------------------------------------------------------------------
// The generator enumerates exactly the lines whose runs are the rule
// ---------------------------------------------------------------------------

/// Skipping cells that are not Filled does not change the runs read from a
/// line when no run is in progress.
proof fn lemma_runs_skip_not_filled(l: Seq<TileState>, i: int, s: int)
    requires
        0 <= i <= s <= l.len(),
        forall|j: int| i <= j < s ==> !((#[trigger] l[j]) is Filled),
    ensures
        runs_from(l, i, 0) == runs_from(l, s, 0),
    decreases s - i,
{
    if i < s {
        lemma_runs_skip_not_filled(l, i + 1, s);
    }
}

/// Reading through a block of Filled cells accumulates its length.
proof fn lemma_runs_through_filled(l: Seq<TileState>, i: int, c: int, cur: int)
    requires
        0 <= i,
        c >= 0,
        i + c <= l.len(),
        forall|j: int| i <= j < i + c ==> (#[trigger] l[j]) is Filled,
    ensures
        runs_from(l, i, cur) == runs_from(l, i + c, cur + c),
    decreases c,
{
    if c > 0 {
        lemma_runs_through_filled(l, i + 1, c - 1, cur + 1);
    }
}

/// The runs read from a position depend only on the cells from there on.
proof fn lemma_runs_agree(l1: Seq<TileState>, l2: Seq<TileState>, i: int, cur: int)
    requires
        l1.len() == l2.len(),
        forall|j: int| i <= j < l1.len() ==> l1[j] == l2[j],
    ensures
        runs_from(l1, i, cur) == runs_from(l2, i, cur),
    decreases l1.len() - i,
{
    if 0 <= i < l1.len() {
        lemma_runs_agree(l1, l2, i + 1, cur);
        lemma_runs_agree(l1, l2, i + 1, cur + 1);
        lemma_runs_agree(l1, l2, i + 1, 0);
    }
}

/// Every segment of every placement lies within `index..width`.
proof fn lemma_placements_bounds(chunks: Seq<usize>, index: int, width: int, k: int)
    requires
        width <= usize::MAX,
        0 <= k < placements(chunks, index, width).len(),
    ensures
        forall|t: int|
            0 <= t < placements(chunks, index, width)[k].len() ==> index <= (
            #[trigger] placements(chunks, index, width)[k][t]).index && placements(
                chunks,
                index,
                width,
            )[k][t].index + placements(chunks, index, width)[k][t].length <= width,
    decreases chunks.len(), width - index,
{
    let ps = placements(chunks, index, width);
    if chunks.len() == 0 {
        assert(ps[k].len() == 0);
    } else if index < 0 || index >= width || index + chunks[0] > width {
    } else {
        let rest = chunks.drop_first();
        let first_len = placements(rest, index + chunks[0] + 1, width).len();
        if k < first_len {
            let p0 = placements(rest, index + chunks[0] + 1, width)[k];
            assert(ps[k] == seq![Segment { length: chunks[0], index: index as usize }] + p0);
            lemma_placements_bounds(rest, index + chunks[0] + 1, width, k);
            assert forall|t: int|
                0 <= t < ps[k].len() implies index <= (#[trigger] ps[k][t]).index && ps[k][t].index
                + ps[k][t].length <= width by {
                if t == 0 {
                    assert(ps[k][t] == Segment { length: chunks[0], index: index as usize });
                } else {
                    assert(ps[k][t] == p0[t - 1]);
                    assert(index + chunks[0] + 1 <= p0[t - 1].index);
                }
            }
        } else {
            lemma_placements_bounds(chunks, index + 1, width, k - first_len);
            assert(ps[k] == placements(chunks, index + 1, width)[k - first_len]);
            assert forall|t: int|
                0 <= t < ps[k].len() implies index <= (#[trigger] ps[k][t]).index && ps[k][t].index
                + ps[k][t].length <= width by {
                assert(index + 1 <= placements(chunks, index + 1, width)[k - first_len][t].index);
            }
        }
    }
}

/// The line built from one placement of `chunks` into `index..width` reads
/// back exactly the runs `chunks` from position `index` on.
proof fn lemma_placement_runs(chunks: Seq<usize>, index: int, width: int, k: int)
    requires
        0 <= index,
        width <= usize::MAX,
        forall|t: int| 0 <= t < chunks.len() ==> chunks[t] > 0,
        0 <= k < placements(chunks, index, width).len(),
    ensures
        runs_from(line_of_segments(placements(chunks, index, width)[k], width), index, 0)
            == rule_ints(chunks),
    decreases chunks.len(), width - index,
{
    let ps = placements(chunks, index, width);
    let p = ps[k];
    let l = line_of_segments(p, width);
    if chunks.len() == 0 {
        assert(p.len() == 0);
        assert forall|j: int| index <= j < l.len() implies !((#[trigger] l[j]) is Filled) by {
            assert(!seg_covers(p, j));
        }
        if index <= l.len() {
            lemma_runs_skip_not_filled(l, index, l.len() as int);
        }
        assert(rule_ints(chunks) =~= Seq::<int>::empty());
    } else if index < 0 || index >= width || index + chunks[0] > width {
        assert(false);
    } else {
        let c = chunks[0] as int;
        let rest = chunks.drop_first();
        assert(forall|t: int| 0 <= t < rest.len() ==> rest[t] == chunks[t + 1]);
        let first_len = placements(rest, index + c + 1, width).len();
        if k < first_len {
            let p0 = placements(rest, index + c + 1, width)[k];
            assert(p == seq![Segment { length: chunks[0], index: index as usize }] + p0);
            assert(p[0] == Segment { length: chunks[0], index: index as usize });
            assert(forall|t: int| 0 <= t < p0.len() ==> p[t + 1] == p0[t]);
            lemma_placements_bounds(rest, index + c + 1, width, k);
            // The first run's cells are Filled.
            assert forall|j: int| index <= j < index + c implies (#[trigger] l[j]) is Filled by {
                assert(p[0].index <= j < p[0].index + p[0].length);
                assert(seg_covers(p, j));
            }
            // From the cell after the run on, the line is the one built from
            // the remaining segments.
            let l0 = line_of_segments(p0, width);
            assert forall|j: int| index + c <= j < width implies l[j] == l0[j] by {
                assert(seg_covers(p, j) <==> seg_covers(p0, j)) by {
                    if seg_covers(p, j) {
                        let t = choose|t: int|
                            0 <= t < p.len() && (#[trigger] p[t]).index <= j < p[t].index
                                + p[t].length;
                        if t == 0 {
                            assert(p[0].index + p[0].length == index + c);
                            assert(false);
                        } else {
                            assert(p[t] == p0[t - 1]);
                            assert(seg_covers(p0, j));
                        }
                    }
                    if seg_covers(p0, j) {
                        let t = choose|t: int|
                            0 <= t < p0.len() && (#[trigger] p0[t]).index <= j < p0[t].index
                                + p0[t].length;
                        assert(p[t + 1] == p0[t]);
                        assert(seg_covers(p, j));
                    }
                }
            }
            lemma_runs_through_filled(l, index, c, 0);
            assert(rule_ints(chunks) =~= seq![c] + rule_ints(rest));
            if index + c == width {
                assert(runs_from(l, width, c) =~= seq![c]);
                if rest.len() > 0 {
                    assert(placements(rest, index + c + 1, width).len() == 0);
                    assert(false);
                }
                assert(rule_ints(rest) =~= Seq::<int>::empty());
                assert(seq![c] + rule_ints(rest) =~= seq![c]);
            } else {
                // The cell right after the run is not covered by any segment.
                assert(!seg_covers(p0, index + c)) by {
                    if seg_covers(p0, index + c) {
                        let t = choose|t: int|
                            0 <= t < p0.len() && (#[trigger] p0[t]).index <= index + c < p0[t].index
                                + p0[t].length;
                        assert(p0[t].index >= index + c + 1);
                    }
                }
                assert(l[index + c] == l0[index + c]);
                assert(l[index + c] is Empty);
                assert(runs_from(l, index + c, c) == seq![c] + runs_from(l, index + c + 1, 0));
                lemma_placement_runs(rest, index + c + 1, width, k);
                lemma_runs_agree(l, l0, index + c + 1, 0);
                assert(runs_from(l, index + c + 1, 0) == rule_ints(rest));
            }
        } else {
            let k2 = k - first_len;
            assert(p == placements(chunks, index + 1, width)[k2]);
            lemma_placement_runs(chunks, index + 1, width, k2);
            lemma_placements_bounds(chunks, index + 1, width, k2);
            assert(!seg_covers(p, index)) by {
                if seg_covers(p, index) {
                    let t = choose|t: int|
                        0 <= t < p.len() && (#[trigger] p[t]).index <= index < p[t].index
                            + p[t].length;
                    assert(index + 1 <= placements(chunks, index + 1, width)[k2][t].index);
                }
            }
            assert(!(l[index] is Filled));
            assert(runs_from(l, index, 0) == runs_from(l, index + 1, 0));
        }
    }
}

/// The end of the run of Filled cells that starts at `i`: the first
/// position at or after `i` that is not Filled, or the line's end.
spec fn run_end(l: Seq<TileState>, i: int) -> int
    decreases l.len() - i,
{
    if i < 0 || i >= l.len() || !(l[i] is Filled) {
        i
    } else {
        run_end(l, i + 1)
    }
}

proof fn lemma_run_end_props(l: Seq<TileState>, i: int)
    requires
        0 <= i <= l.len(),
    ensures
        i <= run_end(l, i) <= l.len(),
        forall|j: int| i <= j < run_end(l, i) ==> (#[trigger] l[j]) is Filled,
        run_end(l, i) == l.len() || !(l[run_end(l, i)] is Filled),
    decreases l.len() - i,
{
    if i < l.len() && l[i] is Filled {
        lemma_run_end_props(l, i + 1);
    }
}

/// A line whose runs read empty has no Filled cell from `i` on.
proof fn lemma_runs_from_empty(l: Seq<TileState>, i: int)
    requires
        i >= 0,
        runs_from(l, i, 0) == Seq::<int>::empty(),
    ensures
        forall|j: int| i <= j < l.len() ==> !((#[trigger] l[j]) is Filled),
    decreases l.len() - i,
{
    if 0 <= i < l.len() {
        if l[i] is Filled {
            lemma_runs_from_head(l, i + 1, 1);
        } else {
            lemma_runs_from_empty(l, i + 1);
        }
    }
}

/// Completeness of the generator: a fully determined line that reads back
/// exactly the runs `chunks` from position `index` on, is — from `index`
/// on — one of the generated placements of `chunks` into `index..width`.
proof fn lemma_runs_complete(chunks: Seq<usize>, index: int, width: int, l: Seq<TileState>) -> (k:
    int)
    requires
        0 <= index <= width <= usize::MAX,
        forall|t: int| 0 <= t < chunks.len() ==> chunks[t] > 0,
        l.len() == width,
        crate::game_board::line_determined(l),
        runs_from(l, index, 0) == rule_ints(chunks),
    ensures
        0 <= k < placements(chunks, index, width).len(),
        forall|j: int|
            index <= j < width ==> line_of_segments(placements(chunks, index, width)[k], width)[j]
                == l[j],
    decreases chunks.len(), width - index,
{
    let ps = placements(chunks, index, width);
    if chunks.len() == 0 {
        assert(rule_ints(chunks) =~= Seq::<int>::empty());
        lemma_runs_from_empty(l, index);
        let k = 0;
        assert(ps[0] =~= Seq::<Segment>::empty());
        assert forall|j: int| index <= j < width implies line_of_segments(ps[0], width)[j]
            == l[j] by {
            assert(!seg_covers(ps[0], j));
            assert(!(l[j] is Filled));
            assert(!(l[j] is Undetermined));
        }
        k
    } else if index == width {
        assert(rule_ints(chunks).len() == chunks.len());
        assert(runs_from(l, index, 0).len() == 0);
        assert(false);
        0
    } else if !(l[index] is Filled) {
        assert(runs_from(l, index, 0) == runs_from(l, index + 1, 0));
        let k2 = lemma_runs_complete(chunks, index + 1, width, l);
        let first_len = placements(chunks.drop_first(), index + chunks[0] + 1, width).len();
        if index + chunks[0] > width {
            assert(placements(chunks, index + 1, width).len() == 0);
            assert(false);
        }
        assert(ps[first_len + k2] == placements(chunks, index + 1, width)[k2]);
        let k = first_len + k2;
        lemma_placements_bounds(chunks, index + 1, width, k2);
        assert forall|j: int| index <= j < width implies line_of_segments(ps[k], width)[j]
            == l[j] by {
            if j == index {
                assert(!seg_covers(ps[k], index)) by {
                    if seg_covers(ps[k], index) {
                        let t = choose|t: int|
                            0 <= t < ps[k].len() && (#[trigger] ps[k][t]).index <= index
                                < ps[k][t].index + ps[k][t].length;
                        assert(index + 1 <= placements(chunks, index + 1, width)[k2][t].index);
                    }
                }
                assert(!(l[index] is Undetermined));
            } else {
                assert(line_of_segments(placements(chunks, index + 1, width)[k2], width)[j]
                    == l[j]);
            }
        }
        k
    } else {
        // The first run of the line starts right here.
        let e = run_end(l, index);
        lemma_run_end_props(l, index);
        let c = chunks[0] as int;
        let rest = chunks.drop_first();
        assert(forall|t: int| 0 <= t < rest.len() ==> rest[t] == chunks[t + 1]);
        lemma_runs_through_filled(l, index, e - index, 0);
        assert(rule_ints(chunks) =~= seq![c] + rule_ints(rest));
        // Its length is the first run of the rule.
        if e == width {
            assert(runs_from(l, e, e - index) =~= seq![e - index]);
            assert(rule_ints(chunks)[0] == c);
            assert(e - index == c);
            assert(rule_ints(chunks).len() == 1);
            assert(rest.len() == 0);
        } else {
            assert(!(l[e] is Undetermined));
            assert(l[e] is Empty);
            assert(runs_from(l, e, e - index) == seq![e - index] + runs_from(l, e + 1, 0));
            assert((seq![e - index] + runs_from(l, e + 1, 0))[0] == e - index);
            assert(e - index == c);
            assert((seq![c] + rule_ints(rest)).drop_first() =~= rule_ints(rest));
            assert((seq![e - index] + runs_from(l, e + 1, 0)).drop_first() =~= runs_from(
                l,
                e + 1,
                0,
            ));
            assert(runs_from(l, e + 1, 0) == rule_ints(rest));
        }
        assert(index + c <= width);
        let first_len = placements(rest, index + c + 1, width).len();
        if e == width {
            // The run reaches the right edge: nothing remains to place.
            assert(placements(rest, index + c + 1, width) =~= seq![Seq::<Segment>::empty()]);
            let k = 0;
            assert(ps[0] == seq![Segment { length: chunks[0], index: index as usize }] + Seq::<
                Segment,
            >::empty());
            assert(ps[0] =~= seq![Segment { length: chunks[0], index: index as usize }]);
            assert forall|j: int| index <= j < width implies line_of_segments(ps[0], width)[j]
                == l[j] by {
                assert(ps[0][0] == Segment { length: chunks[0], index: index as usize });
                assert(seg_covers(ps[0], j));
                assert(l[j] is Filled);
            }
            k
        } else {
            let k2 = lemma_runs_complete(rest, e + 1, width, l);
            let p0 = placements(rest, e + 1, width)[k2];
            assert(e + 1 == index + c + 1);
            let k = k2;
            assert(k < first_len);
            assert(ps[k] == seq![Segment { length: chunks[0], index: index as usize }] + p0);
            assert(ps[k][0] == Segment { length: chunks[0], index: index as usize });
            assert(forall|t: int| 0 <= t < p0.len() ==> ps[k][t + 1] == p0[t]);
            lemma_placements_bounds(rest, e + 1, width, k2);
            assert forall|j: int| index <= j < width implies line_of_segments(ps[k], width)[j]
                == l[j] by {
                if j < e {
                    assert(ps[k][0].index <= j < ps[k][0].index + ps[k][0].length);
                    assert(seg_covers(ps[k], j));
                    assert(l[j] is Filled);
                } else {
                    assert(seg_covers(ps[k], j) <==> seg_covers(p0, j)) by {
                        if seg_covers(ps[k], j) {
                            let t = choose|t: int|
                                0 <= t < ps[k].len() && (#[trigger] ps[k][t]).index <= j
                                    < ps[k][t].index + ps[k][t].length;
                            if t == 0 {
                                assert(ps[k][0].index + ps[k][0].length == e);
                                assert(false);
                            } else {
                                assert(ps[k][t] == p0[t - 1]);
                                assert(seg_covers(p0, j));
                            }
                        }
                        if seg_covers(p0, j) {
                            let t = choose|t: int|
                                0 <= t < p0.len() && (#[trigger] p0[t]).index <= j < p0[t].index
                                    + p0[t].length;
                            assert(ps[k][t + 1] == p0[t]);
                            assert(seg_covers(ps[k], j));
                        }
                    }
                    if j == e {
                        assert(!seg_covers(p0, e)) by {
                            if seg_covers(p0, e) {
                                let t = choose|t: int|
                                    0 <= t < p0.len() && (#[trigger] p0[t]).index <= e
                                        < p0[t].index + p0[t].length;
                                assert(e + 1 <= p0[t].index);
                            }
                        }
                        assert(l[e] is Empty);
                    } else {
                        assert(line_of_segments(p0, width)[j] == l[j]);
                    }
                }
            }
            k
        }
    }
}

/// Completeness of the generator: every fully determined line of the right
/// width whose runs are exactly the (normalized) rule is one of the lines
/// the generator enumerates.
pub proof fn lemma_runs_line_fits(rule: Seq<usize>, width: int, l: Seq<TileState>)
    requires
        0 <= width <= usize::MAX,
        l.len() == width,
        crate::game_board::line_determined(l),
        crate::game_board::runs(l) == rule_ints(normalize_rule(rule)),
    ensures
        all_lines(rule, width).contains(l),
{
    let norm = normalize_rule(rule);
    assert forall|t: int| 0 <= t < norm.len() implies norm[t] > 0 by {
        Seq::<usize>::lemma_filter_pred(rule, |v: usize| v > 0, t);
    }
    let k = lemma_runs_complete(norm, 0, width, l);
    let p = placements(norm, 0, width)[k];
    assert(all_lines(rule, width)[k] == line_of_segments(Seq::<Segment>::empty() + p, width));
    assert(Seq::<Segment>::empty() + p =~= p);
    assert(line_of_segments(p, width) =~= l);
}

/// Every generated line reads back exactly the runs of its (normalized)
/// rule: the generator is sound for the run-extraction semantics.
pub proof fn lemma_all_lines_runs(rule: Seq<usize>, width: int, l: Seq<TileState>)
    requires
        0 <= width <= usize::MAX,
        all_lines(rule, width).contains(l),
    ensures
        crate::game_board::runs(l) == rule_ints(normalize_rule(rule)),
{
    let norm = normalize_rule(rule);
    assert forall|t: int| 0 <= t < norm.len() implies norm[t] > 0 by {
        Seq::<usize>::lemma_filter_pred(rule, |v: usize| v > 0, t);
    }
    let lines = all_lines(rule, width);
    let k = choose|k: int| 0 <= k < lines.len() && lines[k] == l;
    let p = placements(norm, 0, width)[k];
    assert(l == line_of_segments(Seq::<Segment>::empty() + p, width));
    assert(Seq::<Segment>::empty() + p =~= p);
    lemma_placement_runs(norm, 0, width, k);
}

/// A line of `width` Undetermined cells, the default reference line.
pub open spec fn undet_line(width: int) -> Seq<TileState> {
    Seq::new(width as nat, |i: int| TileState::Undetermined)
}

/// A candidate does not contradict the reference line: no cell is Filled
/// where the reference is Empty, or Empty where the reference is Filled.
pub open spec fn line_compatible(cand: Seq<TileState>, refl: Seq<TileState>) -> bool {
    forall|i: int| 0 <= i < cand.len() && i < refl.len() ==> !tiles_conflict(cand[i], refl[i])
}

/// The candidates among `cands` that do not contradict the reference line.
pub open spec fn compatible_candidates(
    cands: Seq<Seq<TileState>>,
    refl: Seq<TileState>,
) -> Seq<Seq<TileState>> {
    cands.filter(|l: Seq<TileState>| line_compatible(l, refl))
}

/// What every candidate agrees on at position `j`: Filled if all candidates
/// are Filled there, Empty if all are Empty, Undetermined otherwise.
pub open spec fn consensus_tile(cands: Seq<Seq<TileState>>, j: int) -> TileState {
    if forall|k: int| 0 <= k < cands.len() ==> (#[trigger] cands[k])[j] is Filled {
        TileState::Filled
    } else if forall|k: int| 0 <= k < cands.len() ==> (#[trigger] cands[k])[j] is Empty {
        TileState::Empty
    } else {
        TileState::Undetermined
    }
}

/// The pointwise consensus of a set of candidate lines.
pub open spec fn consensus_line(cands: Seq<Seq<TileState>>, width: int) -> Seq<TileState> {
    Seq::new(width as nat, |j: int| consensus_tile(cands, j))
}

/// The pairwise fold that computes the consensus: Filled with Filled stays
/// Filled, Empty with Empty stays Empty, anything else is Undetermined.
pub open spec fn fold_tile(a: TileState, b: TileState) -> TileState {
    if a is Filled && b is Filled {
        TileState::Filled
    } else if a is Empty && b is Empty {
        TileState::Empty
    } else {
        TileState::Undetermined
    }
}

proof fn lemma_consensus_singleton(l: Seq<TileState>, j: int)
    ensures
        consensus_tile(seq![l], j) == l[j],
{
    assert(seq![l][0] == l);
}

proof fn lemma_consensus_push(cands: Seq<Seq<TileState>>, l: Seq<TileState>, j: int)
    requires
        cands.len() > 0,
    ensures
        consensus_tile(cands.push(l), j) == fold_tile(consensus_tile(cands, j), l[j]),
{
    let p = cands.push(l);
    assert(p[cands.len() as int] == l);
    assert(forall|k: int| 0 <= k < cands.len() ==> p[k] == cands[k]);
    if consensus_tile(cands, j) is Filled {
        assert(cands[0][j] is Filled);
    } else if consensus_tile(cands, j) is Empty {
        assert(cands[0][j] is Empty);
    } else {
        if forall|k: int| 0 <= k < p.len() ==> (#[trigger] p[k])[j] is Filled {
            assert forall|k: int| 0 <= k < cands.len() implies (#[trigger] cands[k])[j]
                is Filled by {
                assert(p[k][j] is Filled);
            }
            assert(false);
        }
        if forall|k: int| 0 <= k < p.len() ==> (#[trigger] p[k])[j] is Empty {
            assert forall|k: int| 0 <= k < cands.len() implies (#[trigger] cands[k])[j]
                is Empty by {
                assert(p[k][j] is Empty);
            }
            assert(false);
        }
    }
}

/// Fold one candidate line into the running consensus.
fn fold_line(acc: &mut Vec<TileState>, row: &GameBoardRow)
    requires
        old(acc)@.len() == row@.len(),
    ensures
        final(acc)@.len() == old(acc)@.len(),
        forall|j: int| 0 <= j < final(acc)@.len() ==> final(acc)@[j] == fold_tile(
            old(acc)@[j],
            row@[j],
        ),
{
    let mut j: usize = 0;
    while j < acc.len()
        invariant
            0 <= j <= acc@.len(),
            acc@.len() == old(acc)@.len(),
            acc@.len() == row@.len(),
            forall|t: int| 0 <= t < j ==> acc@[t] == fold_tile(old(acc)@[t], row@[t]),
            forall|t: int| j <= t < acc@.len() ==> acc@[t] == old(acc)@[t],
        decreases acc@.len() - j,
    {
        let merged = match (acc[j], row.0[j]) {
            (TileState::Filled, TileState::Filled) => TileState::Filled,
            (TileState::Empty, TileState::Empty) => TileState::Empty,
            _ => TileState::Undetermined,
        };
        acc[j] = merged;
        j += 1;
    }
}

/// A depth-first enumerator of the placements of one run constraint into a
/// line of fixed width.
#[derive(Debug)]
pub struct PicrossLineIter {
    width: usize,
    stack: Vec<RowIterFrame>,
}

#[derive(Debug)]
struct RowIterFrame {
    index: usize,
    current_solution: Vec<Segment>,
    remaining_chunks: Vec<usize>,
}

impl RowIterFrame {
    spec fn lines(&self, width: int) -> Seq<Seq<TileState>> {
        lines_for(self.remaining_chunks@, self.index as int, width, self.current_solution@)
    }
}

spec fn stack_lines(stack: Seq<RowIterFrame>, width: int) -> Seq<Seq<TileState>>
    decreases stack.len(),
{
    if stack.len() == 0 {
        Seq::<Seq<TileState>>::empty()
    } else {
        stack.last().lines(width) + stack_lines(stack.drop_last(), width)
    }
}

/// A copy of a segment vector.
fn copy_segments(v: &Vec<Segment>) -> (r: Vec<Segment>)
    ensures
        r@ == v@,
{
    let mut out: Vec<Segment> = Vec::new();
    let mut i: usize = 0;
    while i < v.len()
        invariant
            0 <= i <= v.len(),
            out@.len() == i,
            forall|j: int| 0 <= j < i ==> out@[j] == v@[j],
        decreases v.len() - i,
    {
        out.push(v[i]);
        i += 1;
    }
    proof {
        assert(out@ =~= v@);
    }
    out
}

/// The run list without its first entry.
fn tail_of(v: &Vec<usize>) -> (r: Vec<usize>)
    requires
        v@.len() > 0,
    ensures
        r@ == v@.drop_first(),
{
    let mut out: Vec<usize> = Vec::new();
    let mut i: usize = 1;
    while i < v.len()
        invariant
            1 <= i <= v.len(),
            out@.len() == i - 1,
            forall|j: int| 0 <= j < i - 1 ==> out@[j] == v@[j + 1],
        decreases v.len() - i,
    {
        out.push(v[i]);
        i += 1;
    }
    proof {
        assert(out@ =~= v@.drop_first());
    }
    out
}

impl PicrossLineIter {
    /// The width the enumerator was created with.
    pub closed spec fn spec_width(&self) -> int {
        self.width as int
    }

    /// The lines that the enumerator has not yet yielded, first yield first.
    pub closed spec fn remaining(&self) -> Seq<Seq<TileState>> {
        stack_lines(self.stack@, self.width as int)
    }

    /// A fresh enumerator over every line of length `width` that satisfies
    /// the run constraint `chunks`.
    pub fn new(chunks: Vec<usize>, width: usize) -> (r: Self)
        ensures
            r.spec_width() == width,
            r.remaining() == all_lines(chunks@, width as int),
    {
        let mut kept: Vec<usize> = Vec::new();
        let mut i: usize = 0;
        while i < chunks.len()
            invariant
                0 <= i <= chunks.len(),
                kept@ == chunks@.take(i as int).filter(|v: usize| v > 0),
            decreases chunks.len() - i,
        {
            proof {
                assert(chunks@.take(i + 1) =~= chunks@.take(i as int) + seq![chunks@[i as int]]);
                Seq::<usize>::filter_distributes_over_add(
                    chunks@.take(i as int),
                    seq![chunks@[i as int]],
                    |v: usize| v > 0,
                );
                reveal_with_fuel(Seq::filter, 2);
                if chunks@[i as int] > 0 {
                    assert(seq![chunks@[i as int]].filter(|v: usize| v > 0) =~= seq![
                        chunks@[i as int],
                    ]);
                } else {
                    assert(seq![chunks@[i as int]].filter(|v: usize| v > 0) =~= Seq::<
                        usize,
                    >::empty());
                }
            }
            let c = chunks[i];
            if c > 0 {
                kept.push(c);
                proof {
                    assert(kept@ =~= chunks@.take(i + 1).filter(|v: usize| v > 0));
                }
            } else {
                proof {
                    assert(kept@ =~= chunks@.take(i + 1).filter(|v: usize| v > 0));
                }
            }
            i += 1;
        }
        proof {
            assert(chunks@.take(chunks@.len() as int) =~= chunks@);
        }
        let frame = RowIterFrame { index: 0, current_solution: Vec::new(), remaining_chunks: kept };
        let mut stack: Vec<RowIterFrame> = Vec::new();
        stack.push(frame);
        let it = PicrossLineIter { width, stack };
        proof {
            let s = it.stack@;
            assert(s.drop_last() =~= Seq::<RowIterFrame>::empty());
            assert(stack_lines(s.drop_last(), width as int) == Seq::<Seq<TileState>>::empty());
            assert(it.remaining() =~= s.last().lines(width as int));
            assert(s.last().current_solution@ =~= Seq::<Segment>::empty());
        }
        it
    }

    /// Yield the next line that satisfies the constraint, or None when every
    /// placement has been produced.
    pub fn next(&mut self) -> (r: Option<GameBoardRow>)
        ensures
            final(self).spec_width() == old(self).spec_width(),
            match r {
                Some(row) => old(self).remaining().len() > 0 && row@ == old(self).remaining()[0]
                    && row@.len() == old(self).spec_width() && final(self).remaining() == old(
                    self,
                ).remaining().drop_first(),
                None => old(self).remaining().len() == 0 && final(self).remaining() == old(
                    self,
                ).remaining(),
            },
    {
        let w = self.width;
        loop
            invariant
                self.width == w,
                w == old(self).spec_width(),
                self.remaining() == old(self).remaining(),
            decreases stack_sizes(self.stack@, w as int),
        {
            proof {
                lemma_stack_sizes_nonneg(self.stack@, w as int);
            }
            let stack_len = self.stack.len();
            if stack_len == 0 {
                proof {
                    assert(self.remaining() == Seq::<Seq<TileState>>::empty());
                }
                return None;
            }
            let ghost pre_stack = self.stack@;
            let frame = self.stack.pop().unwrap();
            proof {
                assert(pre_stack.last() == frame);
                assert(pre_stack.drop_last() =~= self.stack@);
                assert(self.remaining() == stack_lines(pre_stack, w as int).skip(
                    frame.lines(w as int).len() as int,
                )) by {
                    assert(stack_lines(pre_stack, w as int) == frame.lines(w as int)
                        + stack_lines(self.stack@, w as int));
                    assert((frame.lines(w as int) + stack_lines(self.stack@, w as int)).skip(
                        frame.lines(w as int).len() as int,
                    ) =~= stack_lines(self.stack@, w as int));
                }
            }
            if frame.remaining_chunks.len() == 0 {
                let row = match GameBoardRow::build_from_segments(frame.current_solution, w) {
                    Ok(row) => row,
                    Err(_) => {
                        proof {
                            assert(false);
                        }
                        return None;
                    },
                };
                proof {
                    let sol = frame.current_solution@;
                    assert(placements(frame.remaining_chunks@, frame.index as int, w as int)
                        =~= seq![Seq::<Segment>::empty()]);
                    assert(frame.lines(w as int) =~= seq![
                        line_of_segments(sol + Seq::<Segment>::empty(), w as int),
                    ]);
                    assert(sol + Seq::<Segment>::empty() =~= sol);
                    assert(old(self).remaining()[0] == line_of_segments(sol, w as int));
                    assert(final(self).remaining() =~= old(self).remaining().drop_first());
                }
                return Some(row);
            }
            let current_chunk_length = frame.remaining_chunks[0];
            let others = tail_of(&frame.remaining_chunks);
            let ghost chunks = frame.remaining_chunks@;
            let ghost sol = frame.current_solution@;
            let start = if frame.index < w {
                frame.index
            } else {
                w
            };
            let mut i: usize = w;
            proof {
                assert(lines_for(chunks, w as int, w as int, sol) =~= Seq::<
                    Seq<TileState>,
                >::empty());
                assert(node_size(chunks, w as int, w as int) == 1);
            }
            while i > start
                invariant
                    start <= i <= w,
                    self.width == w,
                    chunks.len() > 0,
                    current_chunk_length == chunks[0],
                    others@ == chunks.drop_first(),
                    sol == frame.current_solution@,
                    stack_lines(self.stack@, w as int) == lines_for(chunks, i as int, w as int, sol)
                        + stack_lines(pre_stack.drop_last(), w as int),
                    stack_sizes(self.stack@, w as int) == (node_size(chunks, i as int, w as int) - 1)
                        + stack_sizes(pre_stack.drop_last(), w as int),
                decreases i,
            {
                i -= 1;
                // The first chunk fits at position i when i + chunks[0] <= w.
                if current_chunk_length <= w - i {
                    let new_index = if current_chunk_length < w - i {
                        i + current_chunk_length + 1
                    } else {
                        w
                    };
                    let mut new_solution = copy_segments(&frame.current_solution);
                    new_solution.push(
                        Segment { length: current_chunk_length, index: i },
                    );
                    let child = RowIterFrame {
                        index: new_index,
                        current_solution: new_solution,
                        remaining_chunks: copy_usizes(&others),
                    };
                    let ghost pre_push = self.stack@;
                    self.stack.push(child);
                    proof {
                        let seg = Segment { length: chunks[0], index: i as usize };
                        let rest = chunks.drop_first();
                        let true_index = i + chunks[0] + 1;
                        assert(child.current_solution@ =~= sol + seq![seg]);
                        assert(child.remaining_chunks@ == rest);
                        assert(child.index as int == new_index as int);
                        // The stored child index may be clamped to w; the
                        // placements are the same either way.
                        assert(placements(rest, new_index as int, w as int) == placements(
                            rest,
                            true_index,
                            w as int,
                        )) by {
                            if new_index as int != true_index {
                                assert(new_index == w && true_index == w as int + 1);
                                if rest.len() == 0 {
                                    assert(placements(rest, w as int, w as int) =~= seq![
                                        Seq::<Segment>::empty(),
                                    ]);
                                    assert(placements(rest, w as int + 1, w as int) =~= seq![
                                        Seq::<Segment>::empty(),
                                    ]);
                                } else {
                                    assert(placements(rest, w as int, w as int) =~= Seq::<
                                        Seq<Segment>,
                                    >::empty());
                                    assert(placements(rest, w as int + 1, w as int) =~= Seq::<
                                        Seq<Segment>,
                                    >::empty());
                                }
                            }
                        }
                        assert(child.lines(w as int) == placements(rest, true_index, w as int)
                            .map_values(|p: Seq<Segment>| line_of_segments((sol + seq![seg]) + p, w as int)));
                        assert(child.lines(w as int) =~= placements(rest, true_index, w as int)
                            .map_values(|p: Seq<Segment>| seq![seg] + p).map_values(
                            |p: Seq<Segment>| line_of_segments(sol + p, w as int),
                        )) by {
                            let f = |p: Seq<Segment>| line_of_segments((sol + seq![seg]) + p, w as int);
                            let g1 = |p: Seq<Segment>| seq![seg] + p;
                            let g2 = |p: Seq<Segment>| line_of_segments(sol + p, w as int);
                            let base = placements(rest, true_index, w as int);
                            assert forall|j: int| 0 <= j < base.len() implies base.map_values(f)[j]
                                == base.map_values(g1).map_values(g2)[j] by {
                                assert((sol + seq![seg]) + base[j] =~= sol + (seq![seg] + base[j]));
                            }
                        }
                        assert(placements(chunks, i as int, w as int) == placements(
                            rest,
                            true_index,
                            w as int,
                        ).map_values(|p: Seq<Segment>| seq![seg] + p) + placements(
                            chunks,
                            i + 1,
                            w as int,
                        ));
                        assert(lines_for(chunks, i as int, w as int, sol) =~= child.lines(w as int)
                            + lines_for(chunks, i + 1, w as int, sol)) by {
                            let part1 = placements(rest, true_index, w as int).map_values(
                                |p: Seq<Segment>| seq![seg] + p,
                            );
                            let part2 = placements(chunks, i + 1, w as int);
                            let g2 = |p: Seq<Segment>| line_of_segments(sol + p, w as int);
                            assert((part1 + part2).map_values(g2) =~= part1.map_values(g2)
                                + part2.map_values(g2));
                        }
                        assert(self.stack@.drop_last() =~= pre_push);
                        assert(stack_lines(self.stack@, w as int) == child.lines(w as int)
                            + stack_lines(pre_push, w as int));
                        assert(node_size(rest, new_index as int, w as int) == node_size(
                            rest,
                            true_index,
                            w as int,
                        )) by {
                            if new_index as int != true_index {
                                assert(new_index == w && true_index == w as int + 1);
                                assert(node_size(rest, w as int, w as int) == 1);
                                assert(node_size(rest, w as int + 1, w as int) == 1);
                            }
                        }
                        assert(node_size(chunks, i as int, w as int) == node_size(
                            rest,
                            true_index,
                            w as int,
                        ) + node_size(chunks, i + 1, w as int));
                        assert(stack_sizes(self.stack@, w as int) == node_size(
                            child.remaining_chunks@,
                            child.index as int,
                            w as int,
                        ) + stack_sizes(pre_push, w as int));
                        assert(child.lines(w as int) + (lines_for(chunks, i + 1, w as int, sol)
                            + stack_lines(pre_stack.drop_last(), w as int)) =~= (child.lines(
                            w as int,
                        ) + lines_for(chunks, i + 1, w as int, sol)) + stack_lines(
                            pre_stack.drop_last(),
                            w as int,
                        ));
                    }
                } else {
                    proof {
                        assert(placements(chunks, i as int, w as int) =~= Seq::<
                            Seq<Segment>,
                        >::empty());
                        assert(placements(chunks, i + 1, w as int) =~= Seq::<
                            Seq<Segment>,
                        >::empty());
                        assert(lines_for(chunks, i as int, w as int, sol) =~= lines_for(
                            chunks,
                            i + 1,
                            w as int,
                            sol,
                        ));
                        assert(node_size(chunks, i as int, w as int) == 1);
                        assert(node_size(chunks, i + 1, w as int) == 1);
                    }
                }
            }
            proof {
                if start != frame.index {
                    // The first run cannot be placed at or beyond the width.
                    assert(placements(chunks, start as int, w as int) =~= Seq::<
                        Seq<Segment>,
                    >::empty());
                    assert(placements(chunks, frame.index as int, w as int) =~= Seq::<
                        Seq<Segment>,
                    >::empty());
                    assert(lines_for(chunks, start as int, w as int, sol) =~= lines_for(
                        chunks,
                        frame.index as int,
                        w as int,
                        sol,
                    ));
                    assert(node_size(chunks, start as int, w as int) == 1);
                    assert(node_size(chunks, frame.index as int, w as int) == 1);
                }
                assert(stack_lines(self.stack@, w as int) == frame.lines(w as int) + stack_lines(
                    pre_stack.drop_last(),
                    w as int,
                ));
                assert(stack_lines(self.stack@, w as int) == stack_lines(pre_stack, w as int));
                assert(stack_sizes(pre_stack, w as int) == node_size(
                    frame.remaining_chunks@,
                    frame.index as int,
                    w as int,
                ) + stack_sizes(pre_stack.drop_last(), w as int));
                assert(stack_sizes(self.stack@, w as int) == stack_sizes(pre_stack, w as int) - 1);
                lemma_stack_sizes_nonneg(self.stack@, w as int);
            }
        }
    }

    /// Intersect every not-yet-yielded line that does not contradict the
    /// reference line (all Undetermined by default) into a single partially
    /// solved line; fails with a contradiction when no candidate is left.
    pub fn get_partially_solved_line(&mut self, known_row: Option<&GameBoardRow>) -> (r: Result<
        GameBoardRow,
        PicrossError,
    >)
        requires
            known_row matches Some(kr) ==> kr@.len() == old(self).spec_width(),
        ensures
            ({
                let refl = match known_row {
                    Some(kr) => kr@,
                    None => undet_line(old(self).spec_width()),
                };
                let cands = compatible_candidates(old(self).remaining(), refl);
                match r {
                    Ok(row) => cands.len() > 0 && row@ == consensus_line(
                        cands,
                        old(self).spec_width(),
                    ),
                    Err(e) => e == PicrossError::Contradiction && cands.len() == 0,
                }
            }),
    {
        let w = self.width;
        let ghost rem0 = self.remaining();
        let ghost refl = match known_row {
            Some(kr) => kr@,
            None => undet_line(w as int),
        };
        let ghost pred = |l: Seq<TileState>| line_compatible(l, refl);
        let mut acc: Option<Vec<TileState>> = None;
        let ghost mut k: int = 0;
        proof {
            assert(rem0.take(0) =~= Seq::<Seq<TileState>>::empty());
            reveal_with_fuel(Seq::filter, 2);
        }
        loop
            invariant
                self.width == w,
                w == old(self).spec_width(),
                rem0 == old(self).remaining(),
                (known_row matches Some(kr) ==> kr@ == refl && refl.len() == w),
                (known_row matches None ==> refl == undet_line(w as int)),
                pred == (|l: Seq<TileState>| line_compatible(l, refl)),
                0 <= k <= rem0.len(),
                self.remaining() == rem0.skip(k),
                match acc {
                    None => rem0.take(k).filter(pred).len() == 0,
                    Some(a) => {
                        let c = rem0.take(k).filter(pred);
                        c.len() > 0 && a@.len() == w && forall|j: int|
                            0 <= j < w ==> a@[j] == consensus_tile(c, j)
                    },
                },
            decreases rem0.len() - k,
        {
            let next_row = self.next();
            match next_row {
                None => {
                    proof {
                        assert(rem0.skip(k).len() == 0);
                        assert(k == rem0.len());
                        assert(rem0.take(k) =~= rem0);
                    }
                    match acc {
                        None => {
                            return Err(PicrossError::Contradiction);
                        },
                        Some(tiles) => {
                            let row = GameBoardRow(tiles);
                            proof {
                                assert(row@ =~= consensus_line(
                                    compatible_candidates(rem0, refl),
                                    w as int,
                                ));
                            }
                            return Ok(row);
                        },
                    }
                },
                Some(row) => {
                    proof {
                        assert(rem0.skip(k)[0] == rem0[k]);
                        assert(rem0.skip(k).drop_first() =~= rem0.skip(k + 1));
                        assert(rem0.take(k + 1) =~= rem0.take(k).push(rem0[k]));
                        Seq::<Seq<TileState>>::filter_distributes_over_add(
                            rem0.take(k),
                            seq![rem0[k]],
                            pred,
                        );
                        assert(rem0.take(k) + seq![rem0[k]] =~= rem0.take(k).push(rem0[k]));
                        reveal_with_fuel(Seq::filter, 2);
                        if pred(rem0[k]) {
                            assert(seq![rem0[k]].filter(pred) =~= seq![rem0[k]]);
                        } else {
                            assert(seq![rem0[k]].filter(pred) =~= Seq::<Seq<TileState>>::empty());
                        }
                    }
                    // Decide whether the candidate contradicts the reference.
                    let mut compatible = true;
                    let mut j: usize = 0;
                    while j < w
                        invariant
                            0 <= j <= w,
                            row@.len() == w,
                            (known_row matches Some(kr) ==> kr@ == refl && refl.len() == w),
                            (known_row matches None ==> refl == undet_line(w as int)),
                            compatible == (forall|t: int|
                                0 <= t < j ==> !tiles_conflict(row@[t], refl[t])),
                        decreases w - j,
                    {
                        let ref_tile = match known_row {
                            Some(kr) => kr.0[j],
                            None => TileState::Undetermined,
                        };
                        let cand_tile = row.0[j];
                        let clash = match (cand_tile, ref_tile) {
                            (TileState::Filled, TileState::Empty) => true,
                            (TileState::Empty, TileState::Filled) => true,
                            _ => false,
                        };
                        if clash {
                            compatible = false;
                        }
                        j += 1;
                    }
                    proof {
                        assert(compatible == line_compatible(row@, refl));
                    }
                    if compatible {
                        let ghost c_old = rem0.take(k).filter(pred);
                        let ghost c_new = rem0.take(k + 1).filter(pred);
                        proof {
                            assert(c_new =~= c_old.push(rem0[k]));
                        }
                        match acc {
                            None => {
                                proof {
                                    assert(c_old.len() == 0);
                                    assert(c_old =~= Seq::<Seq<TileState>>::empty());
                                    assert(c_new =~= seq![row@]);
                                    assert forall|j2: int| 0 <= j2 < w implies row@[j2]
                                        == consensus_tile(c_new, j2) by {
                                        lemma_consensus_singleton(row@, j2);
                                    }
                                }
                                acc = Some(row.0);
                            },
                            Some(ref mut tiles) => {
                                proof {
                                    assert forall|j2: int| 0 <= j2 < w implies consensus_tile(
                                        c_new,
                                        j2,
                                    ) == fold_tile(consensus_tile(c_old, j2), row@[j2]) by {
                                        lemma_consensus_push(c_old, row@, j2);
                                    }
                                }
                                fold_line(tiles, &row);
                            },
                        }
                    }
                    proof {
                        k = k + 1;
                    }
                },
            }
        }
    }
}

/// A copy of a run-length vector.
pub(crate) fn copy_usizes(v: &Vec<usize>) -> (r: Vec<usize>)
    ensures
        r@ == v@,
{
    let mut out: Vec<usize> = Vec::new();
    let mut i: usize = 0;
    while i < v.len()
        invariant
            0 <= i <= v.len(),
            out@.len() == i,
            forall|j: int| 0 <= j < i ==> out@[j] == v@[j],
        decreases v.len() - i,
    {
        out.push(v[i]);
        i += 1;
    }
    proof {
        assert(out@ =~= v@);
    }
    out
}

} // verus!
