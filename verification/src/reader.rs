//! The puzzle file format, as computations on lines of bytes.
//!
//! A puzzle file holds, after any number of comment (`#`) or empty lines, a
//! dimension line `WIDTHxHEIGHT`, then one clue line per row and then one
//! per column; a clue line is run lengths separated by blanks, and a line
//! without numbers is skipped.  Reading the file itself is the caller's
//! business: this module turns its lines into a `Puzzle` or an error.

use vstd::prelude::*;

use crate::puzzle::Puzzle;
use crate::solver::rule_positive;

verus! {

/// Why a puzzle file was rejected.
#[derive(Clone, Copy, PartialEq, Eq, Structural, Debug)]
pub enum PuzzleReaderError {
    /// A clue token is not a number or does not fit a run length.
    BadNumber,
    /// A clue contains a zero run length.
    ZeroRunLength,
    /// The dimension line names an unusable board size.
    InvalidDimensions(usize, usize),
    /// The lines end before every row and column has its clue.
    IncompletePuzzle,
    /// A clue has more runs than its line could separate.
    TooManyRules,
    /// A clue's runs and separators do not fit its line.
    RuleTooLong,
}

/// ASCII blanks: space and the control whitespace characters.
pub open spec fn is_space(b: u8) -> bool {
    b == 32 || (9 <= b <= 13)
}

pub open spec fn is_digit(b: u8) -> bool {
    48 <= b <= 57
}

/// The number of consecutive digits starting at `p`.
pub open spec fn digits_len(s: Seq<u8>, p: int) -> int
    decreases s.len() - p,
{
    if p < 0 || p >= s.len() || !is_digit(s[p]) {
        0
    } else {
        1 + digits_len(s, p + 1)
    }
}

/// The value of the `k` digits starting at `p`, most significant first.
pub open spec fn digits_val(s: Seq<u8>, p: int, k: int) -> int
    decreases k,
{
    if k <= 0 {
        0
    } else {
        digits_val(s, p, k - 1) * 10 + (s[p + k - 1] - 48)
    }
}

/// The numbers on a line of blank-separated decimal tokens, or `None` when
/// anything else appears on it.
pub open spec fn nums_from(s: Seq<u8>, p: int) -> Option<Seq<int>>
    decreases s.len() - p,
    via nums_from_decreases
{
    if p < 0 || p >= s.len() {
        Some(Seq::empty())
    } else if is_space(s[p]) {
        nums_from(s, p + 1)
    } else if is_digit(s[p]) {
        let k = digits_len(s, p);
        let step = if k < 1 {
            1
        } else {
            k
        };
        if p + k < s.len() && !is_space(s[p + k]) {
            None
        } else {
            match nums_from(s, p + step) {
                Some(rest) => Some(seq![digits_val(s, p, k)] + rest),
                None => None,
            }
        }
    } else {
        None
    }
}

#[via_fn]
proof fn nums_from_decreases(s: Seq<u8>, p: int) {
    if 0 <= p < s.len() && !is_space(s[p]) && is_digit(s[p]) {
        lemma_digits_len(s, p);
    }
}

/// The sum of the numbers from index `j` on.
pub open spec fn nums_sum(ns: Seq<int>, j: int) -> int
    decreases ns.len() - j,
{
    if j < 0 || j >= ns.len() {
        0
    } else {
        ns[j] + nums_sum(ns, j + 1)
    }
}

/// What reading one clue line yields: the numbers on it, held to the
/// bounds of the line they will constrain.
pub open spec fn spec_read_rules(s: Seq<u8>, max_value: int, max_elements: int) -> Result<
    Seq<int>,
    PuzzleReaderError,
> {
    match nums_from(s, 0) {
        None => Err(PuzzleReaderError::BadNumber),
        Some(ns) => {
            if exists|j: int| 0 <= j < ns.len() && #[trigger] ns[j] > u32::MAX {
                Err(PuzzleReaderError::BadNumber)
            } else if ns.len() == 0 {
                Ok(ns)
            } else if exists|j: int| 0 <= j < ns.len() && #[trigger] ns[j] == 0 {
                Err(PuzzleReaderError::ZeroRunLength)
            } else if 2 * ns.len() - 1 > max_elements {
                Err(PuzzleReaderError::TooManyRules)
            } else if nums_sum(ns, 0) + (ns.len() - 1) > max_value {
                Err(PuzzleReaderError::RuleTooLong)
            } else {
                Ok(ns)
            }
        },
    }
}

/// What a line yields when looked at as the `WIDTHxHEIGHT` dimension line.
#[derive(Clone, Copy, PartialEq, Eq, Structural, Debug)]
pub enum DimParse {
    /// No `x` on the line: not a dimension line, skip it.
    NoMark,
    /// An `x` is there but the two sides are not padded numbers in range.
    Malformed,
    /// The dimensions as written (possibly zero).
    Dims(usize, usize),
}

/// The index of the first `x` at or after `p`, or the line's length.
pub open spec fn xpos(s: Seq<u8>, p: int) -> int
    decreases s.len() - p,
{
    if p < 0 || p >= s.len() {
        s.len() as int
    } else if s[p] == 120 {
        p
    } else {
        xpos(s, p + 1)
    }
}

/// The number of consecutive blanks at `p`, stopping before `hi`.
pub open spec fn spaces_run(s: Seq<u8>, p: int, hi: int) -> int
    decreases hi - p,
{
    if p < 0 || p >= hi || p >= s.len() || !is_space(s[p]) {
        0
    } else {
        1 + spaces_run(s, p + 1, hi)
    }
}

/// The number of consecutive digits at `p`, stopping before `hi`.
pub open spec fn digits_run(s: Seq<u8>, p: int, hi: int) -> int
    decreases hi - p,
{
    if p < 0 || p >= hi || p >= s.len() || !is_digit(s[p]) {
        0
    } else {
        1 + digits_run(s, p + 1, hi)
    }
}

/// The value of the region `[lo, hi)` read as a number padded by blanks:
/// blanks, at least one digit, blanks, nothing else.
pub open spec fn num_padded(s: Seq<u8>, lo: int, hi: int) -> Option<int> {
    let a = lo + spaces_run(s, lo, hi);
    let k = digits_run(s, a, hi);
    let b = a + k + spaces_run(s, a + k, hi);
    if 1 <= k && b == hi {
        Some(digits_val(s, a, k))
    } else {
        None
    }
}

/// How the dimension line parses: the first `x` splits it, each side must
/// be a padded number, and both must fit the machine's sizes.
pub open spec fn spec_parse_dims(s: Seq<u8>) -> DimParse {
    let xi = xpos(s, 0);
    if xi >= s.len() {
        DimParse::NoMark
    } else {
        match (num_padded(s, 0, xi), num_padded(s, xi + 1, s.len() as int)) {
            (Some(w), Some(h)) => {
                if w <= usize::MAX && h <= usize::MAX {
                    DimParse::Dims(w as usize, h as usize)
                } else {
                    DimParse::Malformed
                }
            },
            _ => DimParse::Malformed,
        }
    }
}

proof fn lemma_digits_len(s: Seq<u8>, p: int)
    requires
        0 <= p <= s.len(),
    ensures
        0 <= digits_len(s, p),
        p + digits_len(s, p) <= s.len(),
        forall|i: int| p <= i < p + digits_len(s, p) ==> is_digit(#[trigger] s[i]),
        p + digits_len(s, p) < s.len() ==> !is_digit(s[p + digits_len(s, p)]),
    decreases s.len() - p,
{
    if p < s.len() && is_digit(s[p]) {
        lemma_digits_len(s, p + 1);
    }
}

/// A number's digits only grow its value.
proof fn lemma_digits_val_mono(s: Seq<u8>, p: int, j: int, k: int)
    requires
        0 <= j <= k,
        0 <= p,
        p + k <= s.len(),
        forall|i: int| p <= i < p + k ==> is_digit(#[trigger] s[i]),
    ensures
        0 <= digits_val(s, p, j) <= digits_val(s, p, k),
    decreases k,
{
    if j < k {
        lemma_digits_val_mono(s, p, j, k - 1);
        assert(is_digit(s[p + k - 1]));
    } else if k > 0 {
        lemma_digits_val_mono(s, p, j - 1, k - 1);
        assert(is_digit(s[p + k - 1]));
    }
}

proof fn lemma_nums_sum_nonneg(ns: Seq<int>, j: int)
    requires
        forall|i: int| 0 <= i < ns.len() ==> #[trigger] ns[i] >= 0,
    ensures
        nums_sum(ns, j) >= 0,
    decreases ns.len() - j,
{
    if 0 <= j < ns.len() {
        lemma_nums_sum_nonneg(ns, j + 1);
    }
}

proof fn lemma_digits_run(s: Seq<u8>, p: int, hi: int)
    requires
        0 <= p <= hi <= s.len(),
    ensures
        0 <= digits_run(s, p, hi),
        p + digits_run(s, p, hi) <= hi,
        forall|i: int| p <= i < p + digits_run(s, p, hi) ==> is_digit(#[trigger] s[i]),
        p + digits_run(s, p, hi) < hi ==> !is_digit(s[p + digits_run(s, p, hi)]),
    decreases hi - p,
{
    if p < hi && is_digit(s[p]) {
        lemma_digits_run(s, p + 1, hi);
    }
}

proof fn lemma_spaces_run(s: Seq<u8>, p: int, hi: int)
    requires
        0 <= p <= hi <= s.len(),
    ensures
        0 <= spaces_run(s, p, hi),
        p + spaces_run(s, p, hi) <= hi,
        forall|i: int| p <= i < p + spaces_run(s, p, hi) ==> is_space(#[trigger] s[i]),
        p + spaces_run(s, p, hi) < hi ==> !is_space(s[p + spaces_run(s, p, hi)]),
    decreases hi - p,
{
    if p < hi && is_space(s[p]) {
        lemma_spaces_run(s, p + 1, hi);
    }
}

/// The numbers on a line, as `u32` values matched against their `int`
/// counterparts.
pub open spec fn as_nums(v: Seq<u32>) -> Seq<int> {
    v.map_values(|u: u32| u as int)
}

/// Reads the region `[lo, hi)` of a line as a blank-padded number, when it
/// is one and its value fits a `usize`.
#[verifier::loop_isolation(false)]
fn parse_padded_usize(ln: &Vec<u8>, lo: usize, hi: usize) -> (r: Option<usize>)
    requires
        lo <= hi <= ln@.len(),
    ensures
        r == match num_padded(ln@, lo as int, hi as int) {
            Some(v) => if v <= usize::MAX {
                Some(v as usize)
            } else {
                None::<usize>
            },
            None => None::<usize>,
        },
{
    let ghost a0 = lo + spaces_run(ln@, lo as int, hi as int);
    let ghost k0 = digits_run(ln@, a0, hi as int);
    proof {
        lemma_spaces_run(ln@, lo as int, hi as int);
        lemma_digits_run(ln@, a0, hi as int);
    }
    let mut p = lo;
    while p < hi && (ln[p] == 32 || (9 <= ln[p] && ln[p] <= 13))
        invariant
            lo <= p <= hi,
            spaces_run(ln@, p as int, hi as int) == a0 - p,
        decreases hi - p,
    {
        p += 1;
    }
    proof {
        assert(p == a0);
    }
    let a = p;
    let mut v: usize = 0;
    let mut overflow = false;
    while p < hi && 48 <= ln[p] && ln[p] <= 57
        invariant
            a <= p <= hi,
            a == a0,
            digits_run(ln@, p as int, hi as int) == k0 - (p - a),
            forall|i: int| a <= i < p ==> is_digit(#[trigger] ln@[i]),
            !overflow ==> v as int == digits_val(ln@, a as int, (p - a) as int),
            overflow ==> digits_val(ln@, a as int, (p - a) as int) > usize::MAX,
        decreases hi - p,
    {
        let d = ln[p] - 48;
        if !overflow {
            if v > (usize::MAX - d as usize) / 10 {
                overflow = true;
                proof {
                    assert(digits_val(ln@, a as int, (p - a) as int + 1) == v * 10 + d);
                }
            } else {
                v = v * 10 + d as usize;
            }
        } else {
            proof {
                assert(is_digit(ln@[p as int]));
                lemma_digits_val_mono(ln@, a as int, (p - a) as int, (p - a) as int + 1);
            }
        }
        p += 1;
    }
    proof {
        assert(p == a0 + k0);
    }
    let k = p - a;
    let ghost b0 = p + spaces_run(ln@, p as int, hi as int);
    proof {
        lemma_spaces_run(ln@, p as int, hi as int);
    }
    while p < hi && (ln[p] == 32 || (9 <= ln[p] && ln[p] <= 13))
        invariant
            a0 + k0 <= p <= hi,
            spaces_run(ln@, p as int, hi as int) == b0 - p,
        decreases hi - p,
    {
        p += 1;
    }
    proof {
        assert(p == b0);
    }
    if k >= 1 && p == hi && !overflow {
        Some(v)
    } else {
        None
    }
}

/// Reads a line as the `WIDTHxHEIGHT` dimension line.
#[verifier::loop_isolation(false)]
pub fn parse_dimensions(ln: &Vec<u8>) -> (r: DimParse)
    ensures
        r == spec_parse_dims(ln@),
{
    let n = ln.len();
    let mut p: usize = 0;
    while p < n && ln[p] != 120
        invariant
            p <= n,
            xpos(ln@, 0) == xpos(ln@, p as int),
        decreases n - p,
    {
        p += 1;
    }
    if p == n {
        return DimParse::NoMark;
    }
    let w = parse_padded_usize(ln, 0, p);
    let h = parse_padded_usize(ln, p + 1, n);
    match (w, h) {
        (Some(w), Some(h)) => DimParse::Dims(w, h),
        _ => DimParse::Malformed,
    }
}

/// Reads one clue line: its blank-separated numbers, held to `max_value`
/// (the cells of the line the clue constrains) and `max_elements` (the
/// cells available to separate its runs).
#[verifier::loop_isolation(false)]
pub fn read_rules(ln: &Vec<u8>, max_value: usize, max_elements: usize) -> (r: Result<
    Vec<u32>,
    PuzzleReaderError,
>)
    ensures
        match r {
            Ok(v) => spec_read_rules(ln@, max_value as int, max_elements as int) == Ok::<
                Seq<int>,
                PuzzleReaderError,
            >(as_nums(v@)),
            Err(e) => spec_read_rules(ln@, max_value as int, max_elements as int) == Err::<
                Seq<int>,
                PuzzleReaderError,
            >(e),
        },
{
    let n = ln.len();
    let mut vals: Vec<u32> = Vec::new();
    let mut p: usize = 0;

    while p < n
        invariant
            p <= n,
            nums_from(ln@, 0) == match nums_from(ln@, p as int) {
                Some(rest) => Some(as_nums(vals@) + rest),
                None => None::<Seq<int>>,
            },
        decreases n - p,
    {
        let c = ln[p];
        if c == 32 || (9 <= c && c <= 13) {
            p += 1;
        } else if 48 <= c && c <= 57 {
            let ghost k = digits_len(ln@, p as int);
            proof {
                lemma_digits_len(ln@, p as int);
            }
            let mut v: u32 = 0;
            let mut overflow = false;
            let mut q = p;
            while q < n && 48 <= ln[q] && ln[q] <= 57
                invariant
                    p <= q <= n,
                    digits_len(ln@, q as int) == k - (q - p),
                    forall|i: int| p <= i < q ==> is_digit(#[trigger] ln@[i]),
                    !overflow ==> v as int == digits_val(ln@, p as int, (q - p) as int),
                    overflow ==> digits_val(ln@, p as int, (q - p) as int) > u32::MAX,
                decreases n - q,
            {
                let d = ln[q] - 48;
                if !overflow {
                    if v > (u32::MAX - d as u32) / 10 {
                        overflow = true;
                        proof {
                            assert(digits_val(ln@, p as int, (q - p) as int + 1) == v * 10 + d);
                        }
                    } else {
                        v = v * 10 + d as u32;
                    }
                } else {
                    proof {
                        assert(is_digit(ln@[q as int]));
                        lemma_digits_val_mono(ln@, p as int, (q - p) as int, (q - p) as int + 1);
                    }
                }
                q += 1;
            }
            proof {
                assert(q == p + k);
            }
            if q < n {
                let cq = ln[q];
                if !(cq == 32 || (9 <= cq && cq <= 13)) {
                    return Err(PuzzleReaderError::BadNumber);
                }
            }
            if overflow {
                proof {
                    if nums_from(ln@, q as int) is Some {
                        let ns = nums_from(ln@, 0)->0;
                        assert(ns[vals@.len() as int] == digits_val(ln@, p as int, k));
                    }
                }
                return Err(PuzzleReaderError::BadNumber);
            }
            vals.push(v);
            proof {
                let rest0 = nums_from(ln@, q as int);
                if rest0 is Some {
                    assert(as_nums(vals@) =~= as_nums(vals@.drop_last()) + seq![v as int]);
                    assert(as_nums(vals@.drop_last()) + (seq![v as int] + rest0->0) =~= as_nums(
                        vals@,
                    ) + rest0->0);
                }
            }
            p = q;
        } else {
            return Err(PuzzleReaderError::BadNumber);
        }
    }
    proof {
        assert(as_nums(vals@) + Seq::<int>::empty() =~= as_nums(vals@));
        assert(nums_from(ln@, 0) == Some(as_nums(vals@)));
    }
    let ghost ns = as_nums(vals@);
    let len = vals.len();
    proof {
        assert forall|jj: int| 0 <= jj < ns.len() implies #[trigger] ns[jj] <= u32::MAX by {
            assert(ns[jj] == vals@[jj] as int);
        }
    }

    if len == 0 {
        return Ok(vals);
    }

    let mut j: usize = 0;
    while j < len
        invariant
            j <= len,
            forall|i: int| 0 <= i < j ==> #[trigger] ns[i] != 0,
        decreases len - j,
    {
        if vals[j] == 0 {
            proof {
                assert(ns[j as int] == 0);
            }
            return Err(PuzzleReaderError::ZeroRunLength);
        }
        j += 1;
    }

    if 2 * (len as u128) - 1 > max_elements as u128 {
        return Err(PuzzleReaderError::TooManyRules);
    }

    let mut sum: u64 = 0;
    let mut i: usize = 0;
    while i < len
        invariant
            i <= len,
            sum as int == nums_sum(ns, 0) - nums_sum(ns, i as int),
            sum <= max_value,
        decreases len - i,
    {
        proof {
            lemma_nums_sum_nonneg(ns, i as int + 1);
        }
        let v64 = vals[i] as u64;
        if v64 > max_value as u64 - sum {
            proof {
                lemma_nums_sum_nonneg(ns, i as int + 1);
            }
            return Err(PuzzleReaderError::RuleTooLong);
        }
        sum = sum + v64;
        i += 1;
    }
    if len as u64 - 1 > max_value as u64 - sum {
        return Err(PuzzleReaderError::RuleTooLong);
    }
    Ok(vals)
}

// ---------------------------------------------------------------------------
// The whole file
// ---------------------------------------------------------------------------

/// The run lengths of every rule in a list, as mathematical integers.
pub open spec fn as_num_rules(rs: Seq<Vec<u32>>) -> Seq<Seq<int>> {
    rs.map_values(|r: Vec<u32>| as_nums(r@))
}

/// A list of byte lines, as mathematical sequences.
pub open spec fn as_byte_lines(ls: Seq<Vec<u8>>) -> Seq<Seq<u8>> {
    ls.map_values(|l: Vec<u8>| l@)
}

/// How a puzzle's lines read, from line `i` on, with the dimensions and the
/// row and column clues gathered so far.
///
/// Empty lines and `#` comments are skipped.  Until the dimension line is
/// met, lines without an `x` are skipped too.  After it, each line with
/// numbers becomes a clue: first one per row, then one per column; reading
/// ends once the last column has its clue.  Lines that run out earlier
/// leave the puzzle incomplete.
pub open spec fn spec_read_lines(
    lines: Seq<Seq<u8>>,
    i: int,
    dims: Option<(int, int)>,
    rows: Seq<Seq<int>>,
    cols: Seq<Seq<int>>,
) -> Result<(int, int, Seq<Seq<int>>, Seq<Seq<int>>), PuzzleReaderError>
    decreases lines.len() - i,
{
    if i < 0 || i >= lines.len() {
        match dims {
            Some((w, h)) => if rows.len() == h && cols.len() == w {
                Ok((w, h, rows, cols))
            } else {
                Err(PuzzleReaderError::IncompletePuzzle)
            },
            None => Err(PuzzleReaderError::IncompletePuzzle),
        }
    } else {
        let ln = lines[i];
        if ln.len() == 0 || ln[0] == 35 {
            spec_read_lines(lines, i + 1, dims, rows, cols)
        } else {
            match dims {
                None => match spec_parse_dims(ln) {
                    DimParse::NoMark => spec_read_lines(lines, i + 1, dims, rows, cols),
                    DimParse::Malformed => Err(PuzzleReaderError::IncompletePuzzle),
                    DimParse::Dims(w, h) => {
                        if w == 0 || h == 0 || w > u32::MAX || h > u32::MAX || w * h > usize::MAX {
                            Err(PuzzleReaderError::InvalidDimensions(w, h))
                        } else {
                            spec_read_lines(lines, i + 1, Some((w as int, h as int)), rows, cols)
                        }
                    },
                },
                Some((w, h)) => {
                    let mv = if rows.len() < h {
                        w
                    } else {
                        h
                    };
                    let me = if rows.len() < h {
                        h
                    } else {
                        w
                    };
                    match spec_read_rules(ln, mv, me) {
                        Err(e) => Err(e),
                        Ok(ns) => {
                            let rows2 = if ns.len() > 0 && rows.len() < h {
                                rows.push(ns)
                            } else {
                                rows
                            };
                            let cols2 = if ns.len() > 0 && rows.len() >= h {
                                cols.push(ns)
                            } else {
                                cols
                            };
                            if cols2.len() >= w {
                                if rows2.len() == h && cols2.len() == w {
                                    Ok((w, h, rows2, cols2))
                                } else {
                                    Err(PuzzleReaderError::IncompletePuzzle)
                                }
                            } else {
                                spec_read_lines(lines, i + 1, dims, rows2, cols2)
                            }
                        },
                    }
                },
            }
        }
    }
}

/// Turns a puzzle file's lines into a fresh puzzle, or says why they do not
/// make one.
#[verifier::loop_isolation(false)]
pub fn read_puzzle_lines(lines: &Vec<Vec<u8>>) -> (r: Result<Puzzle, PuzzleReaderError>)
    ensures
        match r {
            Ok(p) => {
                &&& p.wf()
                &&& p.history@.len() == 1
                &&& p.curr_history == 0
                &&& spec_read_lines(as_byte_lines(lines@), 0, None, Seq::empty(), Seq::empty())
                    == Ok::<_, PuzzleReaderError>(
                    (
                        p.width as int,
                        p.height as int,
                        as_num_rules(p.rules.row_rules@),
                        as_num_rules(p.rules.col_rules@),
                    ),
                )
            },
            Err(e) => spec_read_lines(as_byte_lines(lines@), 0, None, Seq::empty(), Seq::empty())
                == Err::<(int, int, Seq<Seq<int>>, Seq<Seq<int>>), PuzzleReaderError>(e),
        },
{
    let ghost lv = as_byte_lines(lines@);
    let mut dim: Option<(usize, usize)> = None;
    let mut row_rules: Vec<Vec<u32>> = Vec::new();
    let mut col_rules: Vec<Vec<u32>> = Vec::new();
    let n = lines.len();
    let mut i: usize = 0;
    proof {
        assert(as_num_rules(row_rules@) =~= Seq::<Seq<int>>::empty());
        assert(as_num_rules(col_rules@) =~= Seq::<Seq<int>>::empty());
    }

    while i < n
        invariant
            i <= n,
            spec_read_lines(lv, 0, None, Seq::empty(), Seq::empty()) == spec_read_lines(
                lv,
                i as int,
                match dim {
                    Some((w, h)) => Some((w as int, h as int)),
                    None => None::<(int, int)>,
                },
                as_num_rules(row_rules@),
                as_num_rules(col_rules@),
            ),
            dim matches Some((w, h)) ==> 0 < w && 0 < h && w <= u32::MAX && h <= u32::MAX && w * h
                <= usize::MAX && row_rules@.len() <= h && col_rules@.len() < w,
            dim is None ==> row_rules@.len() == 0 && col_rules@.len() == 0,
            forall|j: int|
                0 <= j < row_rules@.len() ==> rule_positive(#[trigger] row_rules@[j]@),
            forall|j: int|
                0 <= j < col_rules@.len() ==> rule_positive(#[trigger] col_rules@[j]@),
        decreases n - i,
    {
        let ghost g_i = i as int;
        let ghost g_dim: Option<(int, int)> = match dim {
            Some((w, h)) => Some((w as int, h as int)),
            None => None,
        };
        let ghost g_rows = as_num_rules(row_rules@);
        let ghost g_cols = as_num_rules(col_rules@);
        let ln = &lines[i];
        proof {
            assert(lv[i as int] == ln@);
        }
        if ln.len() == 0 || ln[0] == 35 {
            proof {
                assert(spec_read_lines(lv, g_i, g_dim, g_rows, g_cols) == spec_read_lines(
                    lv, g_i + 1, g_dim, g_rows, g_cols));
            }
            i += 1;
            continue;
        }
        match dim {
            None => {
                match parse_dimensions(ln) {
                    DimParse::NoMark => {
                        proof {
                            assert(spec_read_lines(lv, g_i, g_dim, g_rows, g_cols)
                                == spec_read_lines(lv, g_i + 1, g_dim, g_rows, g_cols));
                        }
                    },
                    DimParse::Malformed => {
                        return Err(PuzzleReaderError::IncompletePuzzle);
                    },
                    DimParse::Dims(w, h) => {
                        if w == 0 || h == 0 || w > u32::MAX as usize || h > u32::MAX as usize
                            || (usize::MAX / w < h) {
                            proof {
                                if !(w == 0 || h == 0 || w > u32::MAX || h > u32::MAX) {
                                    lemma_div_overflow(w as int, h as int, usize::MAX as int);
                                }
                            }
                            return Err(PuzzleReaderError::InvalidDimensions(w, h));
                        }
                        proof {
                            lemma_div_fits(w as int, h as int, usize::MAX as int);
                            assert(spec_read_lines(lv, g_i, g_dim, g_rows, g_cols)
                                == spec_read_lines(
                                lv, g_i + 1, Some((w as int, h as int)), g_rows, g_cols));
                        }
                        dim = Some((w, h));
                    },
                }
            },
            Some((w, h)) => {
                let filling_rows = row_rules.len() < h;
                let mv = if filling_rows {
                    w
                } else {
                    h
                };
                let me = if filling_rows {
                    h
                } else {
                    w
                };
                match read_rules(ln, mv, me) {
                    Err(e) => {
                        return Err(e);
                    },
                    Ok(ns) => {
                        let ghost spec_ns = as_nums(ns@);
                        let ghost g_rows2 = if spec_ns.len() > 0 && g_rows.len() < h {
                            g_rows.push(spec_ns)
                        } else {
                            g_rows
                        };
                        let ghost g_cols2 = if spec_ns.len() > 0 && g_rows.len() >= h {
                            g_cols.push(spec_ns)
                        } else {
                            g_cols
                        };
                        if ns.len() > 0 {
                            proof {
                                assert forall|j: int| 0 <= j < ns@.len() implies 1 <= #[trigger] ns@[j] by {
                                    assert(as_nums(ns@)[j] == ns@[j] as int);
                                }
                                assert(rule_positive(ns@));
                            }
                            if filling_rows {
                                row_rules.push(ns);
                                proof {
                                    assert(as_num_rules(row_rules@) =~= g_rows.push(spec_ns));
                                }
                            } else {
                                col_rules.push(ns);
                                proof {
                                    assert(as_num_rules(col_rules@) =~= g_cols.push(spec_ns));
                                }
                            }
                        }
                        proof {
                            assert(as_num_rules(row_rules@) == g_rows2);
                            assert(as_num_rules(col_rules@) == g_cols2);
                        }
                        if col_rules.len() >= w {
                            if row_rules.len() == h && col_rules.len() == w {
                                proof {
                                    assert(spec_read_lines(lv, g_i, g_dim, g_rows, g_cols)
                                        == Ok::<_, PuzzleReaderError>(
                                        (w as int, h as int, g_rows2, g_cols2)));
                                }
                                let p = Puzzle::new_with_rules(w, h, col_rules, row_rules);
                                return Ok(p);
                            } else {
                                return Err(PuzzleReaderError::IncompletePuzzle);
                            }
                        }
                        proof {
                            assert(spec_read_lines(lv, g_i, g_dim, g_rows, g_cols)
                                == spec_read_lines(lv, g_i + 1, g_dim, g_rows2, g_cols2));
                        }
                    },
                }
            },
        }
        i += 1;
    }
    match dim {
        Some((w, h)) => {
            if row_rules.len() == h && col_rules.len() == w {
                let p = Puzzle::new_with_rules(w, h, col_rules, row_rules);
                Ok(p)
            } else {
                Err(PuzzleReaderError::IncompletePuzzle)
            }
        },
        None => Err(PuzzleReaderError::IncompletePuzzle),
    }
}

/// `usize::MAX / w < h` detects exactly the products that overflow.
proof fn lemma_div_overflow(w: int, h: int, m: int) by (nonlinear_arith)
    requires
        0 < w,
        0 < h,
        m / w < h,
        0 < m,
    ensures
        w * h > m,
{
}

proof fn lemma_div_fits(w: int, h: int, m: int) by (nonlinear_arith)
    requires
        0 < w,
        0 < h,
        h <= m / w,
        0 < m,
    ensures
        w * h <= m,
{
}

} // verus!
