//! The line constraint solver.
//!
//! A line is one row or column of the board, a sequence of tiles some of
//! which are fixed (`Filled` / `CrossedOut`) while the rest are `Empty`.  A
//! rule is the ordered list of run lengths that the line's filled cells must
//! form.  The solver searches every completion of the empty cells that
//! satisfies the rule and reports, per cell, whether all such completions
//! agree on its value.

use vstd::prelude::*;

use crate::board::Tile;

verus! {

/// The solver's per-cell lattice while solutions are merged: nothing seen
/// yet, all solutions seen agree on filled, all agree on crossed out, or
/// solutions disagree.
#[derive(Clone, Copy, PartialEq, Eq, Structural, Debug)]
pub enum AutoFillTile {
    NoSolutionFound,
    CanBeFilled,
    CanBeCrossedOut,
    CanBeAnything,
}

// ---------------------------------------------------------------------------
// Specification: valid completions of a line suffix
// ---------------------------------------------------------------------------

/// A completion assigns every cell of the line `true` (filled) or `false`
/// (not filled).  `asn` always has the length of the whole line; a suffix
/// position `pos` selects which tail of the line is constrained.
///
/// The completion respects the fixed tiles from `pos` on.
pub open spec fn respects_from(line: Seq<Tile>, pos: int, asn: Seq<bool>) -> bool {
    forall|i: int|
        pos <= i < line.len() ==> {
            &&& (line[i] == Tile::Filled ==> #[trigger] asn[i])
            &&& (line[i] == Tile::CrossedOut ==> !asn[i])
        }
}

/// The run lengths of `asn` from position `p` on, given that a run of length
/// `c` is already open just before `p`.  A run is a maximal block of
/// consecutive `true` cells.
pub open spec fn runs_from(asn: Seq<bool>, p: int, c: int) -> Seq<int>
    decreases asn.len() - p,
{
    if p < 0 || p >= asn.len() {
        if c > 0 {
            seq![c]
        } else {
            Seq::empty()
        }
    } else if asn[p] {
        runs_from(asn, p + 1, c + 1)
    } else {
        if c > 0 {
            seq![c] + runs_from(asn, p + 1, 0)
        } else {
            runs_from(asn, p + 1, 0)
        }
    }
}

/// The runs of the suffix equal the rule elements from `ridx` on.
pub open spec fn runs_match(rs: Seq<int>, rule: Seq<u32>, ridx: int) -> bool {
    &&& rs.len() == rule.len() - ridx
    &&& forall|j: int| 0 <= j < rs.len() ==> #[trigger] rs[j] == rule[ridx + j]
}

/// A valid completion of the line suffix `[pos, line.len())` against the
/// rule suffix `[ridx, rule.len())`.
pub open spec fn suffix_ok(
    line: Seq<Tile>,
    rule: Seq<u32>,
    pos: int,
    ridx: int,
    asn: Seq<bool>,
) -> bool {
    &&& asn.len() == line.len()
    &&& respects_from(line, pos, asn)
    &&& runs_match(runs_from(asn, pos, 0), rule, ridx)
}

/// Every rule element is a positive run length.
pub open spec fn rule_positive(rule: Seq<u32>) -> bool {
    forall|j: int| 0 <= j < rule.len() ==> 1 <= #[trigger] rule[j]
}

/// The line suffix has at least one valid completion.
pub open spec fn sol_exists(line: Seq<Tile>, rule: Seq<u32>, pos: int, ridx: int) -> bool {
    exists|asn: Seq<bool>| suffix_ok(line, rule, pos, ridx, asn)
}

/// Every valid completion of the suffix fills cell `i`.
pub open spec fn all_fill(line: Seq<Tile>, rule: Seq<u32>, pos: int, ridx: int, i: int) -> bool {
    forall|asn: Seq<bool>| #[trigger] suffix_ok(line, rule, pos, ridx, asn) ==> asn[i]
}

/// Every valid completion of the suffix leaves cell `i` unfilled.
pub open spec fn all_cross(line: Seq<Tile>, rule: Seq<u32>, pos: int, ridx: int, i: int) -> bool {
    forall|asn: Seq<bool>| #[trigger] suffix_ok(line, rule, pos, ridx, asn) ==> !asn[i]
}

// ---------------------------------------------------------------------------
// Structural lemmas about runs
// ---------------------------------------------------------------------------

/// `runs_from` only reads positions at `p` and beyond.
proof fn lemma_runs_agree(a1: Seq<bool>, a2: Seq<bool>, p: int, c: int)
    requires
        a1.len() == a2.len(),
        forall|i: int| p <= i < a1.len() ==> #[trigger] a1[i] == a2[i],
    ensures
        runs_from(a1, p, c) == runs_from(a2, p, c),
    decreases a1.len() - p,
{
    if p < 0 || p >= a1.len() {
    } else if a1[p] {
        lemma_runs_agree(a1, a2, p + 1, c + 1);
    } else {
        lemma_runs_agree(a1, a2, p + 1, 0);
    }
}

/// `respects_from` only reads positions at `pos` and beyond.
proof fn lemma_respects_agree(line: Seq<Tile>, pos: int, a1: Seq<bool>, a2: Seq<bool>)
    requires
        a1.len() == a2.len(),
        forall|i: int| pos <= i < a1.len() ==> #[trigger] a1[i] == a2[i],
        respects_from(line, pos, a1),
        a1.len() == line.len(),
    ensures
        respects_from(line, pos, a2),
{
    assert forall|i: int| pos <= i < line.len() implies {
        &&& (line[i] == Tile::Filled ==> #[trigger] a2[i])
        &&& (line[i] == Tile::CrossedOut ==> !a2[i])
    } by {
        assert(a1[i] == a2[i]);
    }
}

/// Walking over `m` consecutive `true` cells just extends the open run.
proof fn lemma_runs_trues(asn: Seq<bool>, p: int, c: int, m: int)
    requires
        0 <= p,
        0 <= m,
        p + m <= asn.len(),
        forall|i: int| p <= i < p + m ==> #[trigger] asn[i],
    ensures
        runs_from(asn, p, c) == runs_from(asn, p + m, c + m),
    decreases m,
{
    if m > 0 {
        lemma_runs_trues(asn, p + 1, c + 1, m - 1);
    }
}

/// A maximal run of `l` `true` cells starting at `pos` contributes exactly
/// one run of length `l`, followed by the runs after its separator.
proof fn lemma_runs_run(asn: Seq<bool>, pos: int, l: int)
    requires
        0 <= pos,
        1 <= l,
        pos + l <= asn.len(),
        forall|i: int| pos <= i < pos + l ==> #[trigger] asn[i],
        pos + l < asn.len() ==> !asn[pos + l],
    ensures
        runs_from(asn, pos, 0) == if pos + l < asn.len() {
            seq![l] + runs_from(asn, pos + l + 1, 0)
        } else {
            seq![l]
        },
{
    lemma_runs_trues(asn, pos, 0, l);
    if pos + l < asn.len() {
        assert(runs_from(asn, pos + l, l) == seq![l] + runs_from(asn, pos + l + 1, 0));
    } else {
        assert(runs_from(asn, pos + l, l) == seq![l]);
    }
}

/// The length of the open block of `true` cells starting at `p`.
pub open spec fn trues_from(asn: Seq<bool>, p: int) -> int
    decreases asn.len() - p,
{
    if p < 0 || p >= asn.len() || !asn[p] {
        0
    } else {
        1 + trues_from(asn, p + 1)
    }
}

proof fn lemma_trues_from(asn: Seq<bool>, p: int)
    requires
        0 <= p <= asn.len(),
    ensures
        0 <= trues_from(asn, p),
        p + trues_from(asn, p) <= asn.len(),
        forall|i: int| p <= i < p + trues_from(asn, p) ==> #[trigger] asn[i],
        p + trues_from(asn, p) < asn.len() ==> !asn[p + trues_from(asn, p)],
    decreases asn.len() - p,
{
    if p < asn.len() && asn[p] {
        lemma_trues_from(asn, p + 1);
    }
}

// ---------------------------------------------------------------------------
// Branch decomposition: a completion either leaves `pos` unfilled, or starts
// the next rule's run exactly at `pos`
// ---------------------------------------------------------------------------

/// The position from which the search continues after placing a run of
/// length `l` at `pos`: one past the mandatory separator, clipped to the
/// line's end.
pub open spec fn next_pos(pos: int, l: int, n: int) -> int {
    if pos + l < n {
        pos + l + 1
    } else {
        n
    }
}

/// A completion that leaves `pos` unfilled is exactly a completion of the
/// rest of the line, provided `pos` is not fixed `Filled`.
proof fn lemma_branch_cross_fwd(
    line: Seq<Tile>,
    rule: Seq<u32>,
    pos: int,
    ridx: int,
    asn: Seq<bool>,
)
    requires
        0 <= pos < line.len(),
        suffix_ok(line, rule, pos, ridx, asn),
        !asn[pos],
    ensures
        line[pos] != Tile::Filled,
        suffix_ok(line, rule, pos + 1, ridx, asn),
{
    assert(runs_from(asn, pos, 0) == runs_from(asn, pos + 1, 0));
}

/// Conversely, any completion of the rest extends to one that leaves `pos`
/// unfilled.
proof fn lemma_branch_cross_bwd(
    line: Seq<Tile>,
    rule: Seq<u32>,
    pos: int,
    ridx: int,
    asn: Seq<bool>,
)
    requires
        0 <= pos < line.len(),
        line[pos] != Tile::Filled,
        suffix_ok(line, rule, pos + 1, ridx, asn),
    ensures
        suffix_ok(line, rule, pos, ridx, asn.update(pos, false)),
        !asn.update(pos, false)[pos],
        forall|i: int| 0 <= i < asn.len() && i != pos ==> #[trigger] asn.update(pos, false)[i] == asn[i],
{
    let a2 = asn.update(pos, false);
    assert forall|i: int| pos + 1 <= i < a2.len() implies #[trigger] a2[i] == asn[i] by {}
    lemma_respects_agree(line, pos + 1, asn, a2);
    lemma_runs_agree(asn, a2, pos + 1, 0);
    assert(runs_from(a2, pos, 0) == runs_from(a2, pos + 1, 0));
    assert forall|i: int| pos <= i < line.len() implies {
        &&& (line[i] == Tile::Filled ==> #[trigger] a2[i])
        &&& (line[i] == Tile::CrossedOut ==> !a2[i])
    } by {
        if i > pos {
            assert(respects_from(line, pos + 1, a2));
            assert(line[i] == Tile::Filled ==> a2[i]);
        }
    }
}

/// A completion that fills `pos` places the next rule element as a run
/// starting exactly at `pos`, with a separator after it, and completes the
/// remainder of the line after that separator.
proof fn lemma_branch_run_fwd(
    line: Seq<Tile>,
    rule: Seq<u32>,
    pos: int,
    ridx: int,
    asn: Seq<bool>,
)
    requires
        0 <= pos < line.len(),
        0 <= ridx <= rule.len(),
        suffix_ok(line, rule, pos, ridx, asn),
        asn[pos],
    ensures
        ridx < rule.len(),
        1 <= rule[ridx],
        pos + rule[ridx] <= line.len(),
        forall|i: int| pos <= i < pos + rule[ridx] ==> #[trigger] asn[i],
        forall|i: int| pos <= i < pos + rule[ridx] ==> #[trigger] line[i] != Tile::CrossedOut,
        pos + rule[ridx] < line.len() ==> !asn[pos + rule[ridx]],
        pos + rule[ridx] < line.len() ==> line[pos + rule[ridx]] != Tile::Filled,
        suffix_ok(line, rule, next_pos(pos, rule[ridx] as int, line.len() as int), ridx + 1, asn),
{
    let n = line.len() as int;
    let k = trues_from(asn, pos);
    lemma_trues_from(asn, pos);
    assert(k >= 1);
    lemma_runs_run(asn, pos, k);
    let rs = runs_from(asn, pos, 0);
    assert(rs[0] == k);
    assert(rs.len() >= 1);
    assert(ridx < rule.len());
    assert(rule[ridx] == k);
    if pos + k < n {
        let rest = runs_from(asn, pos + k + 1, 0);
        assert(rs == seq![k] + rest);
        assert forall|j: int| 0 <= j < rest.len() implies #[trigger] rest[j] == rule[ridx + 1 + j] by {
            assert(rs[j + 1] == rest[j]);
            assert(rs[j + 1] == rule[ridx + (j + 1)]);
        }
        assert(runs_match(rest, rule, ridx + 1));
    } else {
        assert(rs == seq![k]);
        assert(rs.len() == 1);
        assert(runs_from(asn, n, 0) =~= Seq::<int>::empty());
        assert(runs_match(runs_from(asn, n, 0), rule, ridx + 1));
    }
    assert forall|i: int| pos <= i < pos + k implies #[trigger] line[i] != Tile::CrossedOut by {
        assert(asn[i]);
    }
}

/// Conversely, when a run of length `rule[ridx]` fits at `pos` (no fixed
/// cross inside it, no fixed fill straight after it), any completion of the
/// remainder extends to a completion that fills `pos`.
proof fn lemma_branch_run_bwd(
    line: Seq<Tile>,
    rule: Seq<u32>,
    pos: int,
    ridx: int,
    asn: Seq<bool>,
)
    requires
        0 <= pos < line.len(),
        0 <= ridx < rule.len(),
        1 <= rule[ridx],
        pos + rule[ridx] <= line.len(),
        forall|i: int| pos <= i < pos + rule[ridx] ==> #[trigger] line[i] != Tile::CrossedOut,
        pos + rule[ridx] < line.len() ==> line[pos + rule[ridx]] != Tile::Filled,
        suffix_ok(line, rule, next_pos(pos, rule[ridx] as int, line.len() as int), ridx + 1, asn),
    ensures
        suffix_ok(line, rule, pos, ridx, run_patch(asn, pos, rule[ridx] as int)),
        run_patch(asn, pos, rule[ridx] as int)[pos],
        forall|i: int| pos <= i < pos + rule[ridx] ==> #[trigger] run_patch(asn, pos, rule[ridx] as int)[i],
        pos + rule[ridx] < line.len() ==> !run_patch(asn, pos, rule[ridx] as int)[pos + rule[ridx]],
        forall|i: int|
            pos + rule[ridx] + 1 <= i < asn.len() ==>
                #[trigger] run_patch(asn, pos, rule[ridx] as int)[i] == asn[i],
{
    let n = line.len() as int;
    let l = rule[ridx] as int;
    let p2 = next_pos(pos, l, n);
    let a2 = run_patch(asn, pos, l);
    assert(a2.len() == asn.len());
    assert forall|i: int| p2 <= i < a2.len() implies #[trigger] a2[i] == asn[i] by {}
    lemma_respects_agree(line, p2, asn, a2);
    lemma_runs_agree(asn, a2, p2, 0);
    lemma_runs_run(a2, pos, l);
    let rest = runs_from(a2, p2, 0);
    assert(runs_match(rest, rule, ridx + 1));
    let rs = runs_from(a2, pos, 0);
    if pos + l < n {
        assert(rs == seq![l] + rest);
        assert forall|j: int| 0 <= j < rs.len() implies #[trigger] rs[j] == rule[ridx + j] by {
            if j == 0 {
                assert(rs[0] == l);
            } else {
                assert(rs[j] == rest[j - 1]);
                assert(rest[j - 1] == rule[ridx + 1 + (j - 1)]);
            }
        }
        assert(runs_match(rs, rule, ridx));
    } else {
        assert(p2 == n);
        assert(rest =~= Seq::<int>::empty());
        assert(rs == seq![l]);
        assert(runs_match(rs, rule, ridx));
    }
    assert forall|i: int| pos <= i < line.len() implies {
        &&& (line[i] == Tile::Filled ==> #[trigger] a2[i])
        &&& (line[i] == Tile::CrossedOut ==> !a2[i])
    } by {
        if i >= p2 {
            assert(respects_from(line, p2, a2));
            assert(line[i] == Tile::Filled ==> a2[i]);
        }
    }
}

/// `asn` with the block `[pos, pos + l)` forced `true` and the separator
/// cell straight after it (if any) forced `false`.
pub open spec fn run_patch(asn: Seq<bool>, pos: int, l: int) -> Seq<bool> {
    Seq::new(
        asn.len(),
        |i: int|
            if pos <= i < pos + l {
                true
            } else if i == pos + l {
                false
            } else {
                asn[i]
            },
    )
}

// ---------------------------------------------------------------------------
// Minimum space: a suffix with runs still to place needs room for the run
// lengths plus one separator between each neighbouring pair
// ---------------------------------------------------------------------------

/// The sum of the rule elements with indices in `[lo, hi)`.
pub open spec fn rule_sum(rule: Seq<u32>, lo: int, hi: int) -> int
    decreases hi - lo,
{
    if lo >= hi {
        0
    } else {
        rule[lo] + rule_sum(rule, lo + 1, hi)
    }
}

proof fn lemma_rule_sum_nonneg(rule: Seq<u32>, lo: int, hi: int)
    requires
        0 <= lo,
        hi <= rule.len(),
    ensures
        0 <= rule_sum(rule, lo, hi),
    decreases hi - lo,
{
    if lo < hi {
        lemma_rule_sum_nonneg(rule, lo + 1, hi);
    }
}

proof fn lemma_rule_sum_split(rule: Seq<u32>, lo: int, mid: int, hi: int)
    requires
        lo <= mid <= hi,
    ensures
        rule_sum(rule, lo, hi) == rule_sum(rule, lo, mid) + rule_sum(rule, mid, hi),
    decreases mid - lo,
{
    if lo < mid {
        lemma_rule_sum_split(rule, lo + 1, mid, hi);
    }
}

/// The sum of a run sequence from index `j` on.
spec fn sum_runs_from(rs: Seq<int>, j: int) -> int
    decreases rs.len() - j,
{
    if j < 0 || j >= rs.len() {
        0
    } else {
        rs[j] + sum_runs_from(rs, j + 1)
    }
}

proof fn lemma_sum_runs_match(rs: Seq<int>, rule: Seq<u32>, ridx: int, j: int)
    requires
        0 <= ridx,
        0 <= j <= rs.len(),
        runs_match(rs, rule, ridx),
    ensures
        sum_runs_from(rs, j) == rule_sum(rule, ridx + j, rule.len() as int),
    decreases rs.len() - j,
{
    if j < rs.len() {
        lemma_sum_runs_match(rs, rule, ridx, j + 1);
    }
}

/// Any suffix of cells carrying runs `rs` (with a run of length `c` already
/// open) has room for all the runs plus their separators.
proof fn lemma_runs_space(asn: Seq<bool>, p: int, c: int)
    requires
        0 <= p <= asn.len(),
        0 <= c,
    ensures
        runs_from(asn, p, c).len() >= 1 ==> sum_runs_from(runs_from(asn, p, c), 0)
            + runs_from(asn, p, c).len() - 1 <= (asn.len() - p) + c,
    decreases asn.len() - p,
{
    let rs = runs_from(asn, p, c);
    if p >= asn.len() {
        if c > 0 {
            assert(rs == seq![c]);
            assert(sum_runs_from(rs, 1) == 0);
            assert(sum_runs_from(rs, 0) == c);
        }
    } else if asn[p] {
        lemma_runs_space(asn, p + 1, c + 1);
    } else {
        lemma_runs_space(asn, p + 1, 0);
        let rest = runs_from(asn, p + 1, 0);
        if c > 0 {
            assert(rs == seq![c] + rest);
            assert(rs[0] == c);
            assert forall|j: int| 1 <= j <= rest.len() implies
                #[trigger] sum_runs_from(rs, j) == sum_runs_from(rest, j - 1) by {
                lemma_sum_runs_shift(rs, rest, c, j);
            }
            if rest.len() >= 1 {
                assert(sum_runs_from(rs, 1) == sum_runs_from(rest, 0));
                assert(sum_runs_from(rs, 0) == rs[0] + sum_runs_from(rs, 1));
                assert(sum_runs_from(rs, 0) == c + sum_runs_from(rest, 0));
            } else {
                assert(sum_runs_from(rs, 0) == c + sum_runs_from(rs, 1));
                assert(sum_runs_from(rs, 1) == sum_runs_from(rest, 0));
                assert(sum_runs_from(rest, 0) == 0);
            }
        }
    }
}

/// Summing `seq![c] + rest` from index `j >= 1` is summing `rest` from
/// `j - 1`.
proof fn lemma_sum_runs_shift(rs: Seq<int>, rest: Seq<int>, c: int, j: int)
    requires
        rs == seq![c] + rest,
        1 <= j <= rest.len() + 1,
    ensures
        sum_runs_from(rs, j) == sum_runs_from(rest, j - 1),
    decreases rs.len() - j,
{
    if j < rs.len() {
        lemma_sum_runs_shift(rs, rest, c, j + 1);
        assert(rs[j] == rest[j - 1]);
    }
}

/// If a valid completion of the suffix exists while runs remain, the runs
/// plus separators fit in the cells that are left.
proof fn lemma_min_space(line: Seq<Tile>, rule: Seq<u32>, pos: int, ridx: int, asn: Seq<bool>)
    requires
        0 <= pos <= line.len(),
        0 <= ridx < rule.len(),
        suffix_ok(line, rule, pos, ridx, asn),
    ensures
        rule_sum(rule, ridx, rule.len() as int) + (rule.len() - ridx - 1) <= line.len() - pos,
{
    let rs = runs_from(asn, pos, 0);
    lemma_runs_space(asn, pos, 0);
    lemma_sum_runs_match(rs, rule, ridx, 0);
}

// ---------------------------------------------------------------------------
// Per-cell classification of the completions of a suffix
// ---------------------------------------------------------------------------

/// Like `sol_exists`, restricted to completions whose value at `pos` is
/// `at_pos`.
pub open spec fn branch_sol_exists(
    line: Seq<Tile>,
    rule: Seq<u32>,
    pos: int,
    ridx: int,
    at_pos: bool,
) -> bool {
    exists|asn: Seq<bool>|
        #[trigger] suffix_ok(line, rule, pos, ridx, asn) && asn[pos] == at_pos
}

/// Like `all_fill`, restricted to completions whose value at `pos` is
/// `at_pos`.
pub open spec fn branch_all_fill(
    line: Seq<Tile>,
    rule: Seq<u32>,
    pos: int,
    ridx: int,
    at_pos: bool,
    i: int,
) -> bool {
    forall|asn: Seq<bool>|
        #[trigger] suffix_ok(line, rule, pos, ridx, asn) && asn[pos] == at_pos ==> asn[i]
}

/// Like `all_cross`, restricted to completions whose value at `pos` is
/// `at_pos`.
pub open spec fn branch_all_cross(
    line: Seq<Tile>,
    rule: Seq<u32>,
    pos: int,
    ridx: int,
    at_pos: bool,
    i: int,
) -> bool {
    forall|asn: Seq<bool>|
        #[trigger] suffix_ok(line, rule, pos, ridx, asn) && asn[pos] == at_pos ==> !asn[i]
}

/// The completions of a suffix split into those that leave `pos` unfilled
/// and those that fill it.
proof fn lemma_node_split(line: Seq<Tile>, rule: Seq<u32>, pos: int, ridx: int, i: int)
    ensures
        sol_exists(line, rule, pos, ridx) <==> (branch_sol_exists(line, rule, pos, ridx, false)
            || branch_sol_exists(line, rule, pos, ridx, true)),
        all_fill(line, rule, pos, ridx, i) <==> (branch_all_fill(line, rule, pos, ridx, false, i)
            && branch_all_fill(line, rule, pos, ridx, true, i)),
        all_cross(line, rule, pos, ridx, i) <==> (branch_all_cross(line, rule, pos, ridx, false, i)
            && branch_all_cross(line, rule, pos, ridx, true, i)),
{
    if branch_all_fill(line, rule, pos, ridx, false, i)
        && branch_all_fill(line, rule, pos, ridx, true, i) {
        assert forall|asn: Seq<bool>| #[trigger] suffix_ok(line, rule, pos, ridx, asn)
            implies asn[i] by {
            if asn[pos] {
                assert(suffix_ok(line, rule, pos, ridx, asn) && asn[pos] == true);
            } else {
                assert(suffix_ok(line, rule, pos, ridx, asn) && asn[pos] == false);
            }
        }
    }
    if branch_all_cross(line, rule, pos, ridx, false, i)
        && branch_all_cross(line, rule, pos, ridx, true, i) {
        assert forall|asn: Seq<bool>| #[trigger] suffix_ok(line, rule, pos, ridx, asn)
            implies !asn[i] by {
            if asn[pos] {
                assert(suffix_ok(line, rule, pos, ridx, asn) && asn[pos] == true);
            } else {
                assert(suffix_ok(line, rule, pos, ridx, asn) && asn[pos] == false);
            }
        }
    }
}

/// No completion both fills and leaves unfilled the same cell, so at most
/// one of `all_fill` / `all_cross` holds once a completion exists.
proof fn lemma_not_both(line: Seq<Tile>, rule: Seq<u32>, pos: int, ridx: int, i: int)
    requires
        sol_exists(line, rule, pos, ridx),
    ensures
        !(all_fill(line, rule, pos, ridx, i) && all_cross(line, rule, pos, ridx, i)),
{
    let asn = choose|asn: Seq<bool>| suffix_ok(line, rule, pos, ridx, asn);
    assert(suffix_ok(line, rule, pos, ridx, asn));
}

/// A run of `len` cells may start at `pos`: it fits on the line, covers no
/// fixed cross, and is not followed immediately by a fixed fill.
pub open spec fn can_begin_spec(line: Seq<Tile>, pos: int, len: int) -> bool {
    &&& pos + len <= line.len()
    &&& forall|i: int| pos <= i < pos + len ==> #[trigger] line[i] != Tile::CrossedOut
    &&& (pos + len == line.len() || line[pos + len] != Tile::Filled)
}

/// The cross branch is explored at `pos` when the cell is not fixed
/// `Filled`; the run branch when a rule element remains and its run can
/// begin at `pos`.
pub open spec fn cross_allowed(line: Seq<Tile>, pos: int) -> bool {
    line[pos] != Tile::Filled
}

pub open spec fn run_allowed(line: Seq<Tile>, rule: Seq<u32>, pos: int, ridx: int) -> bool {
    &&& ridx < rule.len()
    &&& line[pos] != Tile::CrossedOut
    &&& can_begin_spec(line, pos, rule[ridx] as int)
}

/// Transfer between the node's cross branch and the sub-search one cell
/// further: same completions up to the value at `pos`.
proof fn lemma_cls_cross(line: Seq<Tile>, rule: Seq<u32>, pos: int, ridx: int, i: int)
    requires
        0 <= pos < line.len(),
        0 <= ridx <= rule.len(),
    ensures
        !cross_allowed(line, pos) ==> !branch_sol_exists(line, rule, pos, ridx, false),
        cross_allowed(line, pos) ==> (branch_sol_exists(line, rule, pos, ridx, false)
            <==> sol_exists(line, rule, pos + 1, ridx)),
        cross_allowed(line, pos) && sol_exists(line, rule, pos + 1, ridx) && pos < i
            < line.len() ==> {
            &&& (branch_all_fill(line, rule, pos, ridx, false, i) <==> all_fill(
                line,
                rule,
                pos + 1,
                ridx,
                i,
            ))
            &&& (branch_all_cross(line, rule, pos, ridx, false, i) <==> all_cross(
                line,
                rule,
                pos + 1,
                ridx,
                i,
            ))
        },
        branch_all_cross(line, rule, pos, ridx, false, pos),
        branch_sol_exists(line, rule, pos, ridx, false) ==> !branch_all_fill(
            line,
            rule,
            pos,
            ridx,
            false,
            pos,
        ),
{
    // An unexplorable cross branch is empty.
    if !cross_allowed(line, pos) {
        assert forall|asn: Seq<bool>|
            !(#[trigger] suffix_ok(line, rule, pos, ridx, asn) && asn[pos] == false) by {
            if suffix_ok(line, rule, pos, ridx, asn) && asn[pos] == false {
                lemma_branch_cross_fwd(line, rule, pos, ridx, asn);
            }
        }
    }
    if cross_allowed(line, pos) {
        // Solutions transfer in both directions.
        if branch_sol_exists(line, rule, pos, ridx, false) {
            let asn = choose|asn: Seq<bool>|
                #[trigger] suffix_ok(line, rule, pos, ridx, asn) && asn[pos] == false;
            lemma_branch_cross_fwd(line, rule, pos, ridx, asn);
        }
        if sol_exists(line, rule, pos + 1, ridx) {
            let asn = choose|asn: Seq<bool>| #[trigger] suffix_ok(line, rule, pos + 1, ridx, asn);
            lemma_branch_cross_bwd(line, rule, pos, ridx, asn);
            assert(suffix_ok(line, rule, pos, ridx, asn.update(pos, false))
                && asn.update(pos, false)[pos] == false);
        }
        if sol_exists(line, rule, pos + 1, ridx) && pos < i < line.len() {
            // all_fill transfers.
            if all_fill(line, rule, pos + 1, ridx, i) {
                assert forall|asn: Seq<bool>|
                    #[trigger] suffix_ok(line, rule, pos, ridx, asn) && asn[pos] == false
                    implies asn[i] by {
                    lemma_branch_cross_fwd(line, rule, pos, ridx, asn);
                }
            }
            if branch_all_fill(line, rule, pos, ridx, false, i) {
                assert forall|asn: Seq<bool>|
                    #[trigger] suffix_ok(line, rule, pos + 1, ridx, asn) implies asn[i] by {
                    lemma_branch_cross_bwd(line, rule, pos, ridx, asn);
                    let a2 = asn.update(pos, false);
                    assert(suffix_ok(line, rule, pos, ridx, a2) && a2[pos] == false);
                    assert(a2[i]);
                }
            }
            // all_cross transfers.
            if all_cross(line, rule, pos + 1, ridx, i) {
                assert forall|asn: Seq<bool>|
                    #[trigger] suffix_ok(line, rule, pos, ridx, asn) && asn[pos] == false
                    implies !asn[i] by {
                    lemma_branch_cross_fwd(line, rule, pos, ridx, asn);
                }
            }
            if branch_all_cross(line, rule, pos, ridx, false, i) {
                assert forall|asn: Seq<bool>|
                    #[trigger] suffix_ok(line, rule, pos + 1, ridx, asn) implies !asn[i] by {
                    lemma_branch_cross_bwd(line, rule, pos, ridx, asn);
                    let a2 = asn.update(pos, false);
                    assert(suffix_ok(line, rule, pos, ridx, a2) && a2[pos] == false);
                    assert(!a2[i]);
                }
            }
        }
    }
}

/// Transfer between the node's run branch and the sub-search after the
/// placed run and its separator.
proof fn lemma_cls_run(line: Seq<Tile>, rule: Seq<u32>, pos: int, ridx: int, i: int)
    requires
        0 <= pos < line.len(),
        0 <= ridx <= rule.len(),
        rule_positive(rule),
    ensures
        !run_allowed(line, rule, pos, ridx) ==> !branch_sol_exists(line, rule, pos, ridx, true),
        run_allowed(line, rule, pos, ridx) ==> (branch_sol_exists(line, rule, pos, ridx, true)
            <==> sol_exists(
            line,
            rule,
            next_pos(pos, rule[ridx] as int, line.len() as int),
            ridx + 1,
        )),
        run_allowed(line, rule, pos, ridx) && sol_exists(
            line,
            rule,
            next_pos(pos, rule[ridx] as int, line.len() as int),
            ridx + 1,
        ) ==> {
            let l = rule[ridx] as int;
            let p2 = next_pos(pos, l, line.len() as int);
            &&& (pos <= i < pos + l ==> branch_all_fill(line, rule, pos, ridx, true, i)
                && !branch_all_cross(line, rule, pos, ridx, true, i))
            &&& (pos + l < line.len() && i == pos + l ==> branch_all_cross(
                line,
                rule,
                pos,
                ridx,
                true,
                i,
            ) && !branch_all_fill(line, rule, pos, ridx, true, i))
            &&& (p2 <= i < line.len() ==> (branch_all_fill(line, rule, pos, ridx, true, i)
                <==> all_fill(line, rule, p2, ridx + 1, i)) && (branch_all_cross(
                line,
                rule,
                pos,
                ridx,
                true,
                i,
            ) <==> all_cross(line, rule, p2, ridx + 1, i)))
        },
{
    let n = line.len() as int;
    // An unexplorable run branch is empty.
    if !run_allowed(line, rule, pos, ridx) {
        assert forall|asn: Seq<bool>|
            !(#[trigger] suffix_ok(line, rule, pos, ridx, asn) && asn[pos] == true) by {
            if suffix_ok(line, rule, pos, ridx, asn) && asn[pos] == true {
                lemma_branch_run_fwd(line, rule, pos, ridx, asn);
            }
        }
    }
    if run_allowed(line, rule, pos, ridx) {
        let l = rule[ridx] as int;
        let p2 = next_pos(pos, l, n);
        if branch_sol_exists(line, rule, pos, ridx, true) {
            let asn = choose|asn: Seq<bool>|
                #[trigger] suffix_ok(line, rule, pos, ridx, asn) && asn[pos] == true;
            lemma_branch_run_fwd(line, rule, pos, ridx, asn);
        }
        if sol_exists(line, rule, p2, ridx + 1) {
            let asn = choose|asn: Seq<bool>| #[trigger] suffix_ok(line, rule, p2, ridx + 1, asn);
            lemma_branch_run_bwd(line, rule, pos, ridx, asn);
            let a2 = run_patch(asn, pos, l);
            assert(suffix_ok(line, rule, pos, ridx, a2) && a2[pos] == true);

            // Inside the run every completion fills, and `a2` witnesses that
            // not all cross; straight after the run it is the other way
            // round.
            if pos <= i < pos + l {
                assert forall|b: Seq<bool>|
                    #[trigger] suffix_ok(line, rule, pos, ridx, b) && b[pos] == true
                    implies b[i] by {
                    lemma_branch_run_fwd(line, rule, pos, ridx, b);
                }
                assert(a2[i]);
            }
            if pos + l < n && i == pos + l {
                assert forall|b: Seq<bool>|
                    #[trigger] suffix_ok(line, rule, pos, ridx, b) && b[pos] == true
                    implies !b[i] by {
                    lemma_branch_run_fwd(line, rule, pos, ridx, b);
                }
                assert(!a2[i]);
            }
            if p2 <= i < n {
                if all_fill(line, rule, p2, ridx + 1, i) {
                    assert forall|b: Seq<bool>|
                        #[trigger] suffix_ok(line, rule, pos, ridx, b) && b[pos] == true
                        implies b[i] by {
                        lemma_branch_run_fwd(line, rule, pos, ridx, b);
                    }
                }
                if branch_all_fill(line, rule, pos, ridx, true, i) {
                    assert forall|b: Seq<bool>|
                        #[trigger] suffix_ok(line, rule, p2, ridx + 1, b) implies b[i] by {
                        lemma_branch_run_bwd(line, rule, pos, ridx, b);
                        let b2 = run_patch(b, pos, l);
                        assert(suffix_ok(line, rule, pos, ridx, b2) && b2[pos] == true);
                        assert(b2[i]);
                        assert(b2[i] == b[i]);
                    }
                }
                if all_cross(line, rule, p2, ridx + 1, i) {
                    assert forall|b: Seq<bool>|
                        #[trigger] suffix_ok(line, rule, pos, ridx, b) && b[pos] == true
                        implies !b[i] by {
                        lemma_branch_run_fwd(line, rule, pos, ridx, b);
                    }
                }
                if branch_all_cross(line, rule, pos, ridx, true, i) {
                    assert forall|b: Seq<bool>|
                        #[trigger] suffix_ok(line, rule, p2, ridx + 1, b) implies !b[i] by {
                        lemma_branch_run_bwd(line, rule, pos, ridx, b);
                        let b2 = run_patch(b, pos, l);
                        assert(suffix_ok(line, rule, pos, ridx, b2) && b2[pos] == true);
                        assert(!b2[i]);
                        assert(b2[i] == b[i]);
                    }
                }
            }
        }
    }
}

// ---------------------------------------------------------------------------
// The solver's answer for one cell
// ---------------------------------------------------------------------------

/// What the search reports for cell `i` of a solvable suffix: the lattice
/// value that classifies cell `i` over every valid completion.
pub open spec fn summary_cell(
    line: Seq<Tile>,
    rule: Seq<u32>,
    pos: int,
    ridx: int,
    i: int,
) -> AutoFillTile {
    if all_fill(line, rule, pos, ridx, i) {
        AutoFillTile::CanBeFilled
    } else if all_cross(line, rule, pos, ridx, i) {
        AutoFillTile::CanBeCrossedOut
    } else {
        AutoFillTile::CanBeAnything
    }
}

/// The join of the two branches' lattice values: agreement survives,
/// disagreement is terminal, `NoSolutionFound` is the identity.
pub open spec fn spec_combine(a: AutoFillTile, b: AutoFillTile) -> AutoFillTile {
    if a == AutoFillTile::NoSolutionFound {
        b
    } else if b == AutoFillTile::NoSolutionFound {
        a
    } else if a == b {
        a
    } else {
        AutoFillTile::CanBeAnything
    }
}

/// The cross branch's lattice value for offset `d` of the suffix: a cross
/// at the branching cell, then the sub-search's summary.
pub open spec fn branch1_cell(v1: Seq<AutoFillTile>, d: int) -> AutoFillTile {
    if d == 0 {
        AutoFillTile::CanBeCrossedOut
    } else {
        v1[d - 1]
    }
}

/// The run branch's lattice value for offset `d` of the suffix: the run,
/// its separator, then the sub-search's summary.  `left` is the number of
/// cells in the suffix.
pub open spec fn branch2_cell(v2: Seq<AutoFillTile>, l: int, left: int, d: int) -> AutoFillTile {
    if d < l {
        AutoFillTile::CanBeFilled
    } else if d == l && l < left {
        AutoFillTile::CanBeCrossedOut
    } else {
        v2[d - l - 1]
    }
}

/// Assembling one output cell of a search node from its branch results.
///
/// `has1` / `v1` describe the cross branch: `has1` holds exactly when that
/// branch was explorable and solvable, and `v1` is then the sub-search's
/// summary.  `has2` / `v2` describe the run branch likewise.  The assembled
/// value is the correct summary of the node's own completions.
proof fn lemma_node_cell(
    line: Seq<Tile>,
    rule: Seq<u32>,
    pos: int,
    ridx: int,
    has1: bool,
    v1: Seq<AutoFillTile>,
    has2: bool,
    v2: Seq<AutoFillTile>,
    d: int,
)
    requires
        0 <= pos < line.len(),
        0 <= ridx <= rule.len(),
        rule_positive(rule),
        has1 <==> (cross_allowed(line, pos) && sol_exists(line, rule, pos + 1, ridx)),
        has1 ==> v1.len() == line.len() - pos - 1 && (forall|e: int|
            0 <= e < v1.len() ==> #[trigger] v1[e] == summary_cell(
                line,
                rule,
                pos + 1,
                ridx,
                pos + 1 + e,
            )),
        has2 <==> (run_allowed(line, rule, pos, ridx) && sol_exists(
            line,
            rule,
            next_pos(pos, rule[ridx] as int, line.len() as int),
            ridx + 1,
        )),
        has2 ==> v2.len() == line.len() - next_pos(pos, rule[ridx] as int, line.len() as int)
            && (forall|e: int|
            0 <= e < v2.len() ==> #[trigger] v2[e] == summary_cell(
                line,
                rule,
                next_pos(pos, rule[ridx] as int, line.len() as int),
                ridx + 1,
                next_pos(pos, rule[ridx] as int, line.len() as int) + e,
            )),
        has1 || has2,
        0 <= d < line.len() - pos,
    ensures
        sol_exists(line, rule, pos, ridx),
        ({
            let l = rule[ridx] as int;
            let left = line.len() - pos;
            let out = if has1 && has2 {
                spec_combine(branch1_cell(v1, d), branch2_cell(v2, l, left, d))
            } else if has1 {
                branch1_cell(v1, d)
            } else {
                branch2_cell(v2, l, left, d)
            };
            out == summary_cell(line, rule, pos, ridx, pos + d)
        }),
{
    let n = line.len() as int;
    let i = pos + d;
    let l = rule[ridx] as int;
    let left = n - pos;
    let p2 = next_pos(pos, l, n);

    lemma_node_split(line, rule, pos, ridx, i);
    lemma_cls_cross(line, rule, pos, ridx, i);
    lemma_cls_run(line, rule, pos, ridx, i);

    // The branch flags coincide with branch solvability.
    assert(has1 <==> branch_sol_exists(line, rule, pos, ridx, false));
    assert(has2 <==> branch_sol_exists(line, rule, pos, ridx, true));
    assert(sol_exists(line, rule, pos, ridx));

    // An empty branch classifies every cell vacuously.
    if !has1 {
        assert forall|asn: Seq<bool>|
            #[trigger] suffix_ok(line, rule, pos, ridx, asn) && asn[pos] == false
            implies asn[i] && !asn[i] by {
            assert(branch_sol_exists(line, rule, pos, ridx, false));
        }
    }
    if !has2 {
        assert forall|asn: Seq<bool>|
            #[trigger] suffix_ok(line, rule, pos, ridx, asn) && asn[pos] == true
            implies asn[i] && !asn[i] by {
            assert(branch_sol_exists(line, rule, pos, ridx, true));
        }
    }

    // The cross branch's cell value classifies its completions.
    if has1 {
        if d == 0 {
            assert(branch_all_cross(line, rule, pos, ridx, false, i));
            assert(!branch_all_fill(line, rule, pos, ridx, false, i));
            assert(branch1_cell(v1, d) == AutoFillTile::CanBeCrossedOut);
        } else {
            lemma_not_both(line, rule, pos + 1, ridx, i);
            assert(v1[d - 1] == summary_cell(line, rule, pos + 1, ridx, i));
            assert(branch1_cell(v1, d) == AutoFillTile::CanBeFilled <==> branch_all_fill(
                line, rule, pos, ridx, false, i));
            assert(branch1_cell(v1, d) == AutoFillTile::CanBeCrossedOut <==> branch_all_cross(
                line, rule, pos, ridx, false, i));
        }
        assert(branch1_cell(v1, d) != AutoFillTile::NoSolutionFound);
    }

    // The run branch's cell value classifies its completions.
    if has2 {
        if d < l {
            assert(branch2_cell(v2, l, left, d) == AutoFillTile::CanBeFilled);
            assert(branch_all_fill(line, rule, pos, ridx, true, i));
            assert(!branch_all_cross(line, rule, pos, ridx, true, i));
        } else if d == l && l < left {
            assert(pos + l < n && i == pos + l);
            assert(branch2_cell(v2, l, left, d) == AutoFillTile::CanBeCrossedOut);
            assert(branch_all_cross(line, rule, pos, ridx, true, i));
            assert(!branch_all_fill(line, rule, pos, ridx, true, i));
        } else {
            assert(pos + l <= n);
            assert(l < left);
            assert(d >= l + 1);
            assert(p2 == pos + l + 1);
            assert(p2 <= i < n);
            lemma_not_both(line, rule, p2, ridx + 1, i);
            assert(v2[d - l - 1] == summary_cell(line, rule, p2, ridx + 1, p2 + (d - l - 1)));
            assert(p2 + (d - l - 1) == i);
            assert(branch2_cell(v2, l, left, d) == AutoFillTile::CanBeFilled <==> branch_all_fill(
                line, rule, pos, ridx, true, i));
            assert(branch2_cell(v2, l, left, d) == AutoFillTile::CanBeCrossedOut
                <==> branch_all_cross(line, rule, pos, ridx, true, i));
        }
        assert(branch2_cell(v2, l, left, d) != AutoFillTile::NoSolutionFound);
    }

    lemma_not_both(line, rule, pos, ridx, i);
    if has1 && has2 {
        let c1 = branch1_cell(v1, d);
        let c2 = branch2_cell(v2, l, left, d);
        assert(all_fill(line, rule, pos, ridx, i) <==> (c1 == AutoFillTile::CanBeFilled && c2
            == AutoFillTile::CanBeFilled));
        assert(all_cross(line, rule, pos, ridx, i) <==> (c1 == AutoFillTile::CanBeCrossedOut && c2
            == AutoFillTile::CanBeCrossedOut));
    } else if has1 {
        let c1 = branch1_cell(v1, d);
        assert(all_fill(line, rule, pos, ridx, i) <==> c1 == AutoFillTile::CanBeFilled);
        assert(all_cross(line, rule, pos, ridx, i) <==> c1 == AutoFillTile::CanBeCrossedOut);
    } else {
        let c2 = branch2_cell(v2, l, left, d);
        assert(all_fill(line, rule, pos, ridx, i) <==> c2 == AutoFillTile::CanBeFilled);
        assert(all_cross(line, rule, pos, ridx, i) <==> c2 == AutoFillTile::CanBeCrossedOut);
    }
}

/// A node with neither branch explorable and solvable has no completion.
proof fn lemma_node_none(line: Seq<Tile>, rule: Seq<u32>, pos: int, ridx: int)
    requires
        0 <= pos < line.len(),
        0 <= ridx <= rule.len(),
        rule_positive(rule),
        !(cross_allowed(line, pos) && sol_exists(line, rule, pos + 1, ridx)),
        !(run_allowed(line, rule, pos, ridx) && sol_exists(
            line,
            rule,
            next_pos(pos, rule[ridx] as int, line.len() as int),
            ridx + 1,
        )),
    ensures
        !sol_exists(line, rule, pos, ridx),
{
    lemma_node_split(line, rule, pos, ridx, pos);
    lemma_cls_cross(line, rule, pos, ridx, pos);
    lemma_cls_run(line, rule, pos, ridx, pos);
}

// ---------------------------------------------------------------------------
// Full determinism on an exactly fitting rule
// ---------------------------------------------------------------------------

/// The unique layout of an exactly fitting rule, packed from the left:
/// offset `i` into the suffix falls inside one of the runs.
pub open spec fn canonical_filled(rule: Seq<u32>, ridx: int, i: int) -> bool
    decreases rule.len() - ridx,
{
    if i < 0 || ridx < 0 || ridx >= rule.len() {
        false
    } else if i < rule[ridx] {
        true
    } else {
        canonical_filled(rule, ridx + 1, i - rule[ridx] - 1)
    }
}

/// Positive rule elements sum to at least one cell each.
proof fn lemma_rule_sum_lower(rule: Seq<u32>, lo: int, hi: int)
    requires
        0 <= lo,
        hi <= rule.len(),
        rule_positive(rule),
    ensures
        rule_sum(rule, lo, hi) >= hi - lo,
    decreases hi - lo,
{
    if lo < hi {
        lemma_rule_sum_lower(rule, lo + 1, hi);
    }
}

/// On an all-`Empty` suffix whose remaining runs and separators fill it
/// exactly, the packed layout is the one and only completion, so every cell
/// is classified by it.
proof fn lemma_exact_fit_suffix(line: Seq<Tile>, rule: Seq<u32>, pos: int, ridx: int)
    requires
        0 <= pos <= line.len(),
        0 <= ridx < rule.len(),
        rule_positive(rule),
        forall|j: int| 0 <= j < line.len() ==> #[trigger] line[j] == Tile::Empty,
        rule_sum(rule, ridx, rule.len() as int) + (rule.len() - ridx - 1) == line.len() - pos,
    ensures
        sol_exists(line, rule, pos, ridx),
        forall|i: int|
            pos <= i < line.len() ==> (#[trigger] canonical_filled(rule, ridx, i - pos) ==> all_fill(
                line,
                rule,
                pos,
                ridx,
                i,
            )) && (!canonical_filled(rule, ridx, i - pos) ==> all_cross(line, rule, pos, ridx, i)),
    decreases line.len() - pos,
{
    let n = line.len() as int;
    let k = rule.len() as int;
    let l = rule[ridx] as int;
    lemma_rule_sum_lower(rule, ridx, k);
    lemma_rule_sum_split(rule, ridx, ridx + 1, k);
    assert(rule_sum(rule, ridx, ridx + 1) == l + rule_sum(rule, ridx + 1, ridx + 1));
    lemma_rule_sum_lower(rule, ridx + 1, k);
    assert(pos < n);

    // The cross branch has no completion: one cell fewer than the runs
    // need.
    if sol_exists(line, rule, pos + 1, ridx) {
        let asn = choose|asn: Seq<bool>| #[trigger] suffix_ok(line, rule, pos + 1, ridx, asn);
        lemma_min_space(line, rule, pos + 1, ridx, asn);
    }
    assert(!sol_exists(line, rule, pos + 1, ridx));

    // The run branch is open and solvable.
    let p2 = next_pos(pos, l, n);
    assert(run_allowed(line, rule, pos, ridx));
    if ridx + 1 < k {
        assert(pos + l < n);
        assert(p2 == pos + l + 1);
        lemma_exact_fit_suffix(line, rule, p2, ridx + 1);
    } else {
        assert(l == n - pos);
        assert(p2 == n);
        let asn = Seq::new(line.len(), |j: int| false);
        assert(runs_from(asn, p2, 0) =~= Seq::<int>::empty());
        assert(suffix_ok(line, rule, p2, ridx + 1, asn));
    }
    assert(sol_exists(line, rule, p2, ridx + 1));

    assert forall|i: int|
        pos <= i < n implies (#[trigger] canonical_filled(rule, ridx, i - pos) ==> all_fill(
        line,
        rule,
        pos,
        ridx,
        i,
    )) && (!canonical_filled(rule, ridx, i - pos) ==> all_cross(line, rule, pos, ridx, i)) by {
        lemma_node_split(line, rule, pos, ridx, i);
        lemma_cls_cross(line, rule, pos, ridx, i);
        lemma_cls_run(line, rule, pos, ridx, i);
        assert(!branch_sol_exists(line, rule, pos, ridx, false));
        assert forall|asn: Seq<bool>|
            #[trigger] suffix_ok(line, rule, pos, ridx, asn) && asn[pos] == false
            implies asn[i] && !asn[i] by {
            assert(branch_sol_exists(line, rule, pos, ridx, false));
        }
        if pos <= i < pos + l {
            assert(canonical_filled(rule, ridx, i - pos));
            assert(all_fill(line, rule, pos, ridx, i));
        } else if pos + l < n && i == pos + l {
            assert(canonical_filled(rule, ridx + 1, -1) == false);
            assert(!canonical_filled(rule, ridx, i - pos));
            assert(all_cross(line, rule, pos, ridx, i));
        } else {
            assert(p2 == pos + l + 1 && p2 <= i < n);
            assert(canonical_filled(rule, ridx, i - pos) == canonical_filled(
                rule,
                ridx + 1,
                i - p2,
            ));
            if canonical_filled(rule, ridx + 1, i - p2) {
                assert(all_fill(line, rule, p2, ridx + 1, i));
                assert(all_fill(line, rule, pos, ridx, i));
            } else {
                assert(all_cross(line, rule, p2, ridx + 1, i));
                assert(all_cross(line, rule, pos, ridx, i));
            }
        }
    }
    lemma_node_split(line, rule, pos, ridx, pos);
    lemma_cls_run(line, rule, pos, ridx, pos);
}

/// Full determinism: on an all-`Empty` line whose rule's runs plus one
/// mandatory separator between each neighbouring pair fill the line
/// exactly, the line has exactly one completion — the runs packed from the
/// left — and every cell is forced to that layout's value.
pub proof fn lemma_exact_fit_forces_all(line: Seq<Tile>, rule: Seq<u32>)
    requires
        rule_positive(rule),
        1 <= rule.len(),
        forall|j: int| 0 <= j < line.len() ==> #[trigger] line[j] == Tile::Empty,
        rule_sum(rule, 0, rule.len() as int) + (rule.len() - 1) == line.len(),
    ensures
        sol_exists(line, rule, 0, 0),
        forall|i: int|
            0 <= i < line.len() ==> (#[trigger] canonical_filled(rule, 0, i) ==> all_fill(
                line,
                rule,
                0,
                0,
                i,
            )) && (!canonical_filled(rule, 0, i) ==> all_cross(line, rule, 0, 0, i)),
{
    lemma_exact_fit_suffix(line, rule, 0, 0);
    assert forall|i: int|
        0 <= i < line.len() implies (#[trigger] canonical_filled(rule, 0, i) ==> all_fill(
        line,
        rule,
        0,
        0,
        i,
    )) && (!canonical_filled(rule, 0, i) ==> all_cross(line, rule, 0, 0, i)) by {
        assert(canonical_filled(rule, 0, i - 0) ==> all_fill(line, rule, 0, 0, i));
        assert(!canonical_filled(rule, 0, i - 0) ==> all_cross(line, rule, 0, 0, i));
        assert(canonical_filled(rule, 0, i - 0) == canonical_filled(rule, 0, i));
    }
}

// ---------------------------------------------------------------------------
// Executable search
// ---------------------------------------------------------------------------

/// Joins one branch's per-cell value into the other's, per the lattice.
pub fn combine_solutions(trial: AutoFillTile, accum: AutoFillTile) -> (r: AutoFillTile)
    ensures
        r == spec_combine(trial, accum),
{
    if trial == AutoFillTile::NoSolutionFound {
        accum
    } else if accum == AutoFillTile::NoSolutionFound {
        trial
    } else if trial == accum {
        trial
    } else {
        AutoFillTile::CanBeAnything
    }
}

/// A cell whose lattice value forces a single tile.
pub fn is_unassigned_unique_solution(t: AutoFillTile) -> (r: bool)
    ensures
        r == (t == AutoFillTile::CanBeFilled || t == AutoFillTile::CanBeCrossedOut),
{
    t == AutoFillTile::CanBeFilled || t == AutoFillTile::CanBeCrossedOut
}

/// Whether a run of `len` filled cells may start at `pos`: it must fit on
/// the line, cover no fixed cross, and not touch a fixed fill right after.
#[verifier::loop_isolation(false)]
pub fn can_begin_fill(slice: &Vec<Tile>, pos: usize, len: usize) -> (r: bool)
    requires
        pos <= slice@.len(),
    ensures
        r == can_begin_spec(slice@, pos as int, len as int),
{
    if len > slice.len() - pos {
        return false;
    }
    let mut i = pos;
    while i < pos + len
        invariant
            pos <= i <= pos + len,
            pos + len <= slice@.len(),
            forall|j: int| pos <= j < i ==> #[trigger] slice@[j] != Tile::CrossedOut,
        decreases pos + len - i,
    {
        if slice[i] == Tile::CrossedOut {
            return false;
        }
        i += 1;
    }
    if pos + len == slice.len() {
        true
    } else {
        slice[pos + len] != Tile::Filled
    }
}

/// The pruned exhaustive search over one line suffix.
///
/// Starting at cell `pos` with rule element `rule_idx` next to place, the
/// search explores every valid completion of the suffix.  It returns `None`
/// when no completion exists, and otherwise one lattice value per remaining
/// cell: `CanBeFilled` / `CanBeCrossedOut` when every completion agrees on
/// that cell, `CanBeAnything` when two completions disagree.
#[verifier::loop_isolation(false)]
#[verifier::rlimit(60)]
pub fn try_autofill(line: &Vec<Tile>, rule: &Vec<u32>, pos: usize, rule_idx: usize) -> (r: Option<
    Vec<AutoFillTile>,
>)
    requires
        pos <= line@.len(),
        rule_idx <= rule@.len(),
        rule_positive(rule@),
    ensures
        match r {
            None => !sol_exists(line@, rule@, pos as int, rule_idx as int),
            Some(v) => {
                &&& sol_exists(line@, rule@, pos as int, rule_idx as int)
                &&& v@.len() == line@.len() - pos
                &&& forall|d: int|
                    0 <= d < v@.len() ==> #[trigger] v@[d] == summary_cell(
                        line@,
                        rule@,
                        pos as int,
                        rule_idx as int,
                        pos + d,
                    )
            },
        },
    decreases line@.len() - pos,
{
    let n = line.len();
    let k = rule.len();

    // Base case: the whole line is assigned; it is a solution exactly when
    // every rule element has been placed.
    if pos == n {
        if rule_idx == k {
            proof {
                let asn = Seq::new(line@.len(), |j: int| false);
                assert(runs_from(asn, pos as int, 0) =~= Seq::<int>::empty());
                assert(suffix_ok(line@, rule@, pos as int, rule_idx as int, asn));
            }
            return Some(Vec::new());
        } else {
            proof {
                if sol_exists(line@, rule@, pos as int, rule_idx as int) {
                    let asn = choose|asn: Seq<bool>|
                        #[trigger] suffix_ok(line@, rule@, pos as int, rule_idx as int, asn);
                    assert(runs_from(asn, pos as int, 0) =~= Seq::<int>::empty());
                }
            }
            return None;
        }
    }

    // Feasibility pruning: the runs still to place, plus one separator
    // between each neighbouring pair, must fit in the cells that are left.
    if rule_idx < k {
        let remaining = n - pos;
        let mut required = k - rule_idx - 1;
        if required > remaining {
            proof {
                if sol_exists(line@, rule@, pos as int, rule_idx as int) {
                    let asn = choose|asn: Seq<bool>|
                        #[trigger] suffix_ok(line@, rule@, pos as int, rule_idx as int, asn);
                    lemma_min_space(line@, rule@, pos as int, rule_idx as int, asn);
                    lemma_rule_sum_nonneg(rule@, rule_idx as int, k as int);
                }
            }
            return None;
        }
        let mut i = rule_idx;
        while i < k
            invariant
                rule_idx <= i <= k,
                required == (k - rule_idx - 1) + rule_sum(rule@, rule_idx as int, i as int),
                required <= remaining,
            decreases k - i,
        {
            let rv = rule[i] as usize;
            if rv > remaining - required {
                proof {
                    if sol_exists(line@, rule@, pos as int, rule_idx as int) {
                        let asn = choose|asn: Seq<bool>|
                            #[trigger] suffix_ok(line@, rule@, pos as int, rule_idx as int, asn);
                        lemma_min_space(line@, rule@, pos as int, rule_idx as int, asn);
                        lemma_rule_sum_split(rule@, rule_idx as int, i as int, k as int);
                        lemma_rule_sum_split(rule@, i as int, i as int + 1, k as int);
                        lemma_rule_sum_nonneg(rule@, i as int + 1, k as int);
                    }
                }
                return None;
            }
            required = required + rv;
            proof {
                lemma_rule_sum_split(rule@, rule_idx as int, i as int, i as int + 1);
                assert(rule_sum(rule@, i as int + 1, i as int + 1) == 0);
                assert(rule_sum(rule@, i as int, i as int + 1) == rule@[i as int]);
            }
            i += 1;
        }
    }

    // Branch: leave `pos` unfilled, unless it is fixed filled.
    let r1 = if line[pos] != Tile::Filled {
        try_autofill(line, rule, pos + 1, rule_idx)
    } else {
        None
    };

    // Branch: start the next rule's run at `pos`, when it fits.
    let mut l_run: usize = 0;
    let r2 = if rule_idx < k {
        let l = rule[rule_idx] as usize;
        l_run = l;
        if line[pos] != Tile::CrossedOut && can_begin_fill(line, pos, l) {
            let pos2 = if l < n - pos {
                pos + l + 1
            } else {
                n
            };
            try_autofill(line, rule, pos2, rule_idx + 1)
        } else {
            None
        }
    } else {
        None
    };

    if r1.is_none() && r2.is_none() {
        proof {
            lemma_node_none(line@, rule@, pos as int, rule_idx as int);
        }
        return None;
    }

    // Join the branches cell by cell.
    let ghost v1s: Seq<AutoFillTile> = if r1 is Some {
        r1->0@
    } else {
        Seq::empty()
    };
    let ghost v2s: Seq<AutoFillTile> = if r2 is Some {
        r2->0@
    } else {
        Seq::empty()
    };
    proof {
        lemma_node_cell(
            line@,
            rule@,
            pos as int,
            rule_idx as int,
            r1 is Some,
            v1s,
            r2 is Some,
            v2s,
            0,
        );
    }
    let mut out: Vec<AutoFillTile> = Vec::new();
    let mut d: usize = 0;
    while d < n - pos
        invariant
            d <= n - pos,
            out@.len() == d,
            sol_exists(line@, rule@, pos as int, rule_idx as int),
            forall|e: int|
                0 <= e < d ==> #[trigger] out@[e] == summary_cell(
                    line@,
                    rule@,
                    pos as int,
                    rule_idx as int,
                    pos + e,
                ),
        decreases n - pos - d,
    {
        proof {
            lemma_node_cell(
                line@,
                rule@,
                pos as int,
                rule_idx as int,
                r1 is Some,
                v1s,
                r2 is Some,
                v2s,
                d as int,
            );
        }
        let c: AutoFillTile = match (&r1, &r2) {
            (Some(v1), Some(v2)) => {
                let c1 = if d == 0 {
                    AutoFillTile::CanBeCrossedOut
                } else {
                    v1[d - 1]
                };
                let c2 = if d < l_run {
                    AutoFillTile::CanBeFilled
                } else if d == l_run && l_run < n - pos {
                    AutoFillTile::CanBeCrossedOut
                } else {
                    v2[d - l_run - 1]
                };
                combine_solutions(c1, c2)
            },
            (Some(v1), None) => {
                if d == 0 {
                    AutoFillTile::CanBeCrossedOut
                } else {
                    v1[d - 1]
                }
            },
            (None, Some(v2)) => {
                if d < l_run {
                    AutoFillTile::CanBeFilled
                } else if d == l_run && l_run < n - pos {
                    AutoFillTile::CanBeCrossedOut
                } else {
                    v2[d - l_run - 1]
                }
            },
            (None, None) => {
                proof {
                    assert(false);
                }
                AutoFillTile::CanBeAnything
            },
        };
        assert(c == summary_cell(line@, rule@, pos as int, rule_idx as int, pos + d));
        out.push(c);
        d += 1;
    }
    Some(out)
}

} // verus!
