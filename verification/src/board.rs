//! The tile grid: a fixed-size two-dimensional store of tiles with
//! bounds-checked access, run scanners for clue feedback, and the autofill
//! orchestrator that applies the line solver to every row and column.

use vstd::prelude::*;

use crate::puzzle::Rules;
use crate::solver::AutoFillTile;
use crate::solver::all_cross;
use crate::solver::all_fill;
use crate::solver::sol_exists;
use crate::solver::summary_cell;
use crate::solver::try_autofill;

verus! {

/// One cell of the grid: untouched, painted in, or marked as never filled.
#[derive(Clone, Copy, PartialEq, Eq, Structural, Debug)]
pub enum Tile {
    Empty,
    Filled,
    CrossedOut,
}

/// A `width` x `height` grid of tiles, stored in row-major order.
#[derive(Clone, Debug)]
pub struct Board {
    pub width: usize,
    pub height: usize,
    pub tiles: Vec<Tile>,
}

impl Board {
    /// Well-formedness: positive dimensions that fit the coordinate types of
    /// the accessors, and a backing store of exactly `width * height` tiles.
    pub open spec fn wf(self) -> bool {
        &&& 0 < self.width
        &&& 0 < self.height
        &&& self.width <= u32::MAX
        &&& self.height <= u32::MAX
        &&& self.width * self.height <= usize::MAX
        &&& self.tiles@.len() == self.width * self.height
    }

    /// The tile at `(x, y)`, as a mathematical function of the board.
    pub open spec fn idx(self, x: int, y: int) -> Tile {
        self.tiles@[y * self.width + x]
    }

    /// One row of the grid as a flat sequence, left to right.
    pub open spec fn row_seq(self, y: int) -> Seq<Tile> {
        Seq::new(self.width as nat, |x: int| self.idx(x, y))
    }

    /// One column of the grid as a flat sequence, top to bottom.
    pub open spec fn col_seq(self, x: int) -> Seq<Tile> {
        Seq::new(self.height as nat, |y: int| self.idx(x, y))
    }

    pub fn new(width: usize, height: usize) -> (b: Board)
        requires
            0 < width,
            0 < height,
            width <= u32::MAX,
            height <= u32::MAX,
            width * height <= usize::MAX,
        ensures
            b.wf(),
            b.width == width,
            b.height == height,
            forall|x: int, y: int|
                0 <= x < width && 0 <= y < height ==> b.idx(x, y) == Tile::Empty,
    {
        let n = width * height;
        let mut ts: Vec<Tile> = Vec::new();
        let mut i: usize = 0;
        while i < n
            invariant
                i <= n,
                ts@.len() == i,
                forall|j: int| 0 <= j < i ==> ts@[j] == Tile::Empty,
            decreases n - i,
        {
            ts.push(Tile::Empty);
            i += 1;
        }
        let b = Board { width, height, tiles: ts };
        proof {
            assert forall|x: int, y: int|
                0 <= x < width && 0 <= y < height implies b.idx(x, y) == Tile::Empty by {
                lemma_rm_index_bounds(width as int, height as int, x, y);
            }
        }
        b
    }

    /// The tile at in-bounds coordinates.
    fn at(&self, x: usize, y: usize) -> (t: Tile)
        requires
            self.wf(),
            x < self.width,
            y < self.height,
        ensures
            t == self.idx(x as int, y as int),
    {
        proof {
            lemma_rm_index_bounds(self.width as int, self.height as int, x as int, y as int);
        }
        self.tiles[self.width * y + x]
    }

    pub fn get(&self, x: u32, y: u32) -> (r: Option<Tile>)
        requires
            self.wf(),
        ensures
            r == if x < self.width && y < self.height {
                Some(self.idx(x as int, y as int))
            } else {
                None::<Tile>
            },
    {
        let xx = x as usize;
        let yy = y as usize;
        if xx < self.width && yy < self.height {
            Some(self.at(xx, yy))
        } else {
            None
        }
    }

    pub fn set(&mut self, x: u32, y: u32, state: Tile)
        requires
            old(self).wf(),
        ensures
            final(self).wf(),
            final(self).width == old(self).width,
            final(self).height == old(self).height,
            forall|i: int, j: int|
                0 <= i < old(self).width && 0 <= j < old(self).height ==>
                    final(self).idx(i, j) == if i == x && j == y {
                        state
                    } else {
                        old(self).idx(i, j)
                    },
    {
        let xx = x as usize;
        let yy = y as usize;
        if xx < self.width && yy < self.height {
            self.set_at(xx, yy, state);
        }
    }

    /// Writes a tile at in-bounds coordinates.
    fn set_at(&mut self, x: usize, y: usize, state: Tile)
        requires
            old(self).wf(),
            x < old(self).width,
            y < old(self).height,
        ensures
            final(self).wf(),
            final(self).width == old(self).width,
            final(self).height == old(self).height,
            forall|i: int, j: int|
                0 <= i < old(self).width && 0 <= j < old(self).height ==>
                    final(self).idx(i, j) == if i == x && j == y {
                        state
                    } else {
                        old(self).idx(i, j)
                    },
    {
        proof {
            lemma_rm_index_bounds(self.width as int, self.height as int, x as int, y as int);
        }
        let i = self.width * y + x;
        self.tiles.set(i, state);
        proof {
            assert forall|i2: int, j2: int|
                0 <= i2 < old(self).width && 0 <= j2 < old(self).height implies
                final(self).idx(i2, j2) == if i2 == x && j2 == y {
                    state
                } else {
                    old(self).idx(i2, j2)
                } by {
                lemma_rm_index_bounds(self.width as int, self.height as int, i2, j2);
                if !(i2 == x && j2 == y) {
                    lemma_rm_index_injective(
                        self.width as int, x as int, y as int, i2, j2);
                }
            }
        }
    }
}

impl Board {
    /// The tile that cell `(x, y)`'s row forces on it: its current value
    /// must be `Empty`, the row must have at least one valid completion,
    /// and every completion must agree on the cell.
    pub open spec fn row_forced_tile(self, rules: Rules, x: int, y: int) -> Option<Tile> {
        let line = self.row_seq(y);
        let rule = rules.row_rules@[y]@;
        if line[x] == Tile::Empty && sol_exists(line, rule, 0, 0) {
            if all_fill(line, rule, 0, 0, x) {
                Some(Tile::Filled)
            } else if all_cross(line, rule, 0, 0, x) {
                Some(Tile::CrossedOut)
            } else {
                None
            }
        } else {
            None
        }
    }

    /// The tile that cell `(x, y)`'s column forces on it.
    pub open spec fn col_forced_tile(self, rules: Rules, x: int, y: int) -> Option<Tile> {
        let line = self.col_seq(x);
        let rule = rules.col_rules@[x]@;
        if line[y] == Tile::Empty && sol_exists(line, rule, 0, 0) {
            if all_fill(line, rule, 0, 0, y) {
                Some(Tile::Filled)
            } else if all_cross(line, rule, 0, 0, y) {
                Some(Tile::CrossedOut)
            } else {
                None
            }
        } else {
            None
        }
    }

    /// Some still-empty cell is forced by its row or column.
    pub open spec fn any_forced(self, rules: Rules) -> bool {
        exists|x: int, y: int|
            #![trigger self.row_forced_tile(rules, x, y)]
            #![trigger self.col_forced_tile(rules, x, y)]
            0 <= x < self.width && 0 <= y < self.height && (self.row_forced_tile(rules, x, y)
                is Some || self.col_forced_tile(rules, x, y) is Some)
    }

    /// The cell's value once all row results are applied.
    pub open spec fn row_phase_cell(self, rules: Rules, x: int, y: int) -> Tile {
        if self.row_forced_tile(rules, x, y) is Some {
            self.row_forced_tile(rules, x, y)->0
        } else {
            self.idx(x, y)
        }
    }

    /// What one autofill pass leaves in cell `(x, y)`: rows are applied
    /// first and columns after them, so where both force the cell the
    /// column's tile wins.
    pub open spec fn autofill_cell(self, rules: Rules, x: int, y: int) -> Tile {
        if self.col_forced_tile(rules, x, y) is Some {
            self.col_forced_tile(rules, x, y)->0
        } else {
            self.row_phase_cell(rules, x, y)
        }
    }
}

/// A sequence of `u32` counts as mathematical integers.
pub open spec fn as_ints(v: Seq<u32>) -> Seq<int> {
    v.map_values(|u: u32| u as int)
}

/// The confirmed run lengths of a line scanned from its head, with a run of
/// `c` filled cells open just before position `p`.
///
/// A run is confirmed only when a `CrossedOut` cell or the line's end
/// closes it; the scan stops, discarding any open run, at the first `Empty`
/// cell, beyond which nothing is confirmed.
pub open spec fn segs_scan(line: Seq<Tile>, p: int, c: int) -> Seq<int>
    decreases line.len() - p,
{
    if p < 0 || p >= line.len() {
        if c > 0 {
            seq![c]
        } else {
            Seq::empty()
        }
    } else if line[p] == Tile::Filled {
        segs_scan(line, p + 1, c + 1)
    } else if line[p] == Tile::CrossedOut {
        if c > 0 {
            seq![c] + segs_scan(line, p + 1, 0)
        } else {
            segs_scan(line, p + 1, 0)
        }
    } else {
        Seq::empty()
    }
}

/// Scans a line from its head and returns the confirmed run lengths.
#[verifier::loop_isolation(false)]
fn scan_completed_segments(line: &Vec<Tile>) -> (segs: Vec<u32>)
    requires
        line@.len() <= u32::MAX,
    ensures
        as_ints(segs@) == segs_scan(line@, 0, 0),
{
    let n = line.len();
    let mut segs: Vec<u32> = Vec::new();
    let mut p: usize = 0;

    while p < n
        invariant
            p <= n,
            segs_scan(line@, 0, 0) == as_ints(segs@) + segs_scan(line@, p as int, 0),
        decreases n - p,
    {
        let ghost p0 = p as int;

        if line[p] == Tile::Empty {
            proof {
                assert(segs_scan(line@, 0, 0) =~= as_ints(segs@));
            }
            return segs;
        }

        while p < n && line[p] == Tile::CrossedOut
            invariant
                p0 <= p <= n,
                segs_scan(line@, 0, 0) == as_ints(segs@) + segs_scan(line@, p as int, 0),
            decreases n - p,
        {
            p += 1;
        }

        let ghost p1 = p as int;
        let mut count: u32 = 0;
        while p < n && line[p] == Tile::Filled
            invariant
                p1 <= p <= n,
                count == p - p1,
                segs_scan(line@, 0, 0) == as_ints(segs@) + segs_scan(line@, p as int, count as int),
            decreases n - p,
        {
            count += 1;
            p += 1;
        }

        if count > 0 && (p == n || line[p] == Tile::CrossedOut) {
            segs.push(count);
            proof {
                assert(as_ints(segs@) =~= as_ints(segs@.drop_last()) + seq![count as int]);
                assert(segs_scan(line@, 0, 0) == as_ints(segs@) + segs_scan(line@, p as int, 0));
            }
        }
        proof {
            assert(p > p0);
            if count > 0 && !(p == n || line@[p as int] == Tile::CrossedOut) {
                assert(line@[p as int] == Tile::Empty);
                assert(segs_scan(line@, p as int, count as int) =~= Seq::<int>::empty());
                assert(segs_scan(line@, p as int, 0) =~= Seq::<int>::empty());
            }
        }
    }
    proof {
        assert(segs_scan(line@, 0, 0) =~= as_ints(segs@));
    }
    segs
}

/// The cells of a line in the opposite order.
fn reversed(v: &Vec<Tile>) -> (r: Vec<Tile>)
    ensures
        r@ == v@.reverse(),
{
    let n = v.len();
    let mut r: Vec<Tile> = Vec::new();
    let mut i: usize = 0;
    while i < n
        invariant
            i <= n,
            n == v@.len(),
            r@.len() == i,
            forall|j: int| 0 <= j < i ==> r@[j] == v@[n - 1 - j],
        decreases n - i,
    {
        r.push(v[n - 1 - i]);
        i += 1;
    }
    proof {
        assert(r@ =~= v@.reverse());
    }
    r
}

impl Board {
    /// The confirmed run lengths of column `x`, scanned from the top.
    /// Returns the empty list for an out-of-range column.
    pub fn get_completed_column_segments_from_head(&self, x: usize) -> (segs: Vec<u32>)
        requires
            self.wf(),
        ensures
            as_ints(segs@) == if x < self.width {
                segs_scan(self.col_seq(x as int), 0, 0)
            } else {
                Seq::<int>::empty()
            },
    {
        if x < self.width {
            let line = self.make_col_slice(x);
            scan_completed_segments(&line)
        } else {
            let segs: Vec<u32> = Vec::new();
            proof {
                assert(as_ints(segs@) =~= Seq::<int>::empty());
            }
            segs
        }
    }

    /// The confirmed run lengths of column `x`, scanned from the bottom.
    pub fn get_completed_column_segments_from_tail(&self, x: usize) -> (segs: Vec<u32>)
        requires
            self.wf(),
        ensures
            as_ints(segs@) == if x < self.width {
                segs_scan(self.col_seq(x as int).reverse(), 0, 0)
            } else {
                Seq::<int>::empty()
            },
    {
        if x < self.width {
            let line = self.make_col_slice(x);
            let line = reversed(&line);
            scan_completed_segments(&line)
        } else {
            let segs: Vec<u32> = Vec::new();
            proof {
                assert(as_ints(segs@) =~= Seq::<int>::empty());
            }
            segs
        }
    }

    /// The confirmed run lengths of row `y`, scanned from the left.
    pub fn get_completed_row_segments_from_head(&self, y: usize) -> (segs: Vec<u32>)
        requires
            self.wf(),
        ensures
            as_ints(segs@) == if y < self.height {
                segs_scan(self.row_seq(y as int), 0, 0)
            } else {
                Seq::<int>::empty()
            },
    {
        if y < self.height {
            let line = self.make_row_slice(y);
            scan_completed_segments(&line)
        } else {
            let segs: Vec<u32> = Vec::new();
            proof {
                assert(as_ints(segs@) =~= Seq::<int>::empty());
            }
            segs
        }
    }

    /// The confirmed run lengths of row `y`, scanned from the right.
    pub fn get_completed_row_segments_from_tail(&self, y: usize) -> (segs: Vec<u32>)
        requires
            self.wf(),
        ensures
            as_ints(segs@) == if y < self.height {
                segs_scan(self.row_seq(y as int).reverse(), 0, 0)
            } else {
                Seq::<int>::empty()
            },
    {
        if y < self.height {
            let line = self.make_row_slice(y);
            let line = reversed(&line);
            scan_completed_segments(&line)
        } else {
            let segs: Vec<u32> = Vec::new();
            proof {
                assert(as_ints(segs@) =~= Seq::<int>::empty());
            }
            segs
        }
    }
}

impl Board {
    /// A copy of the grid, cell for cell.  Unlike `clone`, its contract
    /// states that the copy holds the same tiles.
    pub fn duplicate(&self) -> (b: Board)
        requires
            self.wf(),
        ensures
            b.wf(),
            b.width == self.width,
            b.height == self.height,
            b.tiles@ == self.tiles@,
    {
        let n = self.tiles.len();
        let mut ts: Vec<Tile> = Vec::new();
        let mut i: usize = 0;
        while i < n
            invariant
                i <= n,
                n == self.tiles@.len(),
                ts@.len() == i,
                forall|j: int| 0 <= j < i ==> ts@[j] == self.tiles@[j],
            decreases n - i,
        {
            ts.push(self.tiles[i]);
            i += 1;
        }
        proof {
            assert(ts@ =~= self.tiles@);
        }
        Board { width: self.width, height: self.height, tiles: ts }
    }

    /// Row `y` of the grid as a flat vector.
    fn make_row_slice(&self, y: usize) -> (v: Vec<Tile>)
        requires
            self.wf(),
            y < self.height,
        ensures
            v@ == self.row_seq(y as int),
    {
        let mut v: Vec<Tile> = Vec::new();
        let mut x: usize = 0;
        while x < self.width
            invariant
                x <= self.width,
                self.wf(),
                y < self.height,
                v@.len() == x,
                forall|j: int| 0 <= j < x ==> v@[j] == self.idx(j, y as int),
            decreases self.width - x,
        {
            v.push(self.at(x, y));
            x += 1;
        }
        proof {
            assert(v@ =~= self.row_seq(y as int));
        }
        v
    }

    /// One autofill pass: runs the line solver over every row and then
    /// every column of the grid, collects every cell that some line forces,
    /// and applies all those writes to a copy of the board.
    ///
    /// Returns `None` when no cell is forced (the grid is a fixed point of
    /// the pass) and the rewritten copy otherwise.  Each forced write only
    /// targets a cell that is `Empty` here; where a row and a column force
    /// the same cell differently, the column's tile is the one written.
    #[verifier::loop_isolation(false)]
    pub fn autofill(&self, rules: &Rules) -> (r: Option<Board>)
        requires
            self.wf(),
            rules.wf_for(self.width as int, self.height as int),
        ensures
            match r {
                None => !self.any_forced(*rules),
                Some(b2) => {
                    &&& self.any_forced(*rules)
                    &&& b2.wf()
                    &&& b2.width == self.width
                    &&& b2.height == self.height
                    &&& forall|x: int, y: int|
                        0 <= x < self.width && 0 <= y < self.height ==> #[trigger] b2.idx(x, y)
                            == self.autofill_cell(*rules, x, y)
                },
            },
    {
        let mut changed = false;
        let mut b = self.duplicate();

        // Row phase.
        let mut y: usize = 0;
        while y < self.height
            invariant
                y <= self.height,
                b.wf(),
                b.width == self.width,
                b.height == self.height,
                forall|xx: int, yy: int|
                    0 <= xx < self.width && 0 <= yy < self.height ==> #[trigger] b.idx(xx, yy)
                        == if yy < y {
                        self.row_phase_cell(*rules, xx, yy)
                    } else {
                        self.idx(xx, yy)
                    },
                changed ==> self.any_forced(*rules),
                !changed ==> forall|xx: int, yy: int|
                    0 <= xx < self.width && 0 <= yy < y ==> #[trigger] self.row_forced_tile(
                        *rules,
                        xx,
                        yy,
                    ) is None,
            decreases self.height - y,
        {
            let trial = self.make_row_slice(y);
            let res = try_autofill(&trial, &rules.row_rules[y], 0, 0);
            if let Some(accum) = res {
                let mut x: usize = 0;
                while x < self.width
                    invariant
                        x <= self.width,
                        b.wf(),
                        b.width == self.width,
                        b.height == self.height,
                        forall|xx: int, yy: int|
                            0 <= xx < self.width && 0 <= yy < self.height ==> #[trigger] b.idx(
                                xx,
                                yy,
                            ) == if yy < y || (yy == y && xx < x) {
                                self.row_phase_cell(*rules, xx, yy)
                            } else {
                                self.idx(xx, yy)
                            },
                        changed ==> self.any_forced(*rules),
                        !changed ==> forall|xx: int, yy: int|
                            0 <= xx < self.width && 0 <= yy < self.height && (yy < y || (yy == y
                                && xx < x)) ==> #[trigger] self.row_forced_tile(
                                *rules,
                                xx,
                                yy,
                            ) is None,
                    decreases self.width - x,
                {
                    let t = accum[x];
                    if trial[x] == Tile::Empty {
                        if t == AutoFillTile::CanBeFilled {
                            b.set_at(x, y, Tile::Filled);
                            changed = true;
                            proof {
                                assert(self.row_forced_tile(*rules, x as int, y as int)
                                    == Some(Tile::Filled));
                                assert(self.any_forced(*rules));
                            }
                        } else if t == AutoFillTile::CanBeCrossedOut {
                            b.set_at(x, y, Tile::CrossedOut);
                            changed = true;
                            proof {
                                assert(self.row_forced_tile(*rules, x as int, y as int)
                                    == Some(Tile::CrossedOut));
                                assert(self.any_forced(*rules));
                            }
                        }
                    }
                    proof {
                        assert(b.idx(x as int, y as int) == self.row_phase_cell(
                            *rules,
                            x as int,
                            y as int,
                        ));
                    }
                    x += 1;
                }
            } else {
                proof {
                    assert forall|xx: int|
                        0 <= xx < self.width implies #[trigger] self.row_forced_tile(
                        *rules,
                        xx,
                        y as int,
                    ) is None by {}
                    assert forall|xx: int, yy: int|
                        0 <= xx < self.width && 0 <= yy < self.height implies #[trigger] b.idx(
                        xx,
                        yy,
                    ) == if yy < y + 1 {
                        self.row_phase_cell(*rules, xx, yy)
                    } else {
                        self.idx(xx, yy)
                    } by {
                        if yy == y {
                            assert(self.row_forced_tile(*rules, xx, yy) is None);
                        }
                    }
                }
            }
            y += 1;
        }

        // Column phase: forced column tiles overwrite forced row tiles.
        let mut x: usize = 0;
        while x < self.width
            invariant
                x <= self.width,
                b.wf(),
                b.width == self.width,
                b.height == self.height,
                forall|xx: int, yy: int|
                    0 <= xx < self.width && 0 <= yy < self.height ==> #[trigger] b.idx(xx, yy)
                        == if xx < x {
                        self.autofill_cell(*rules, xx, yy)
                    } else {
                        self.row_phase_cell(*rules, xx, yy)
                    },
                changed ==> self.any_forced(*rules),
                !changed ==> forall|xx: int, yy: int|
                    0 <= xx < self.width && 0 <= yy < self.height ==> #[trigger] self.row_forced_tile(
                        *rules,
                        xx,
                        yy,
                    ) is None,
                !changed ==> forall|xx: int, yy: int|
                    0 <= xx < x && 0 <= yy < self.height ==> #[trigger] self.col_forced_tile(
                        *rules,
                        xx,
                        yy,
                    ) is None,
            decreases self.width - x,
        {
            let trial = self.make_col_slice(x);
            let res = try_autofill(&trial, &rules.col_rules[x], 0, 0);
            if let Some(accum) = res {
                let mut y2: usize = 0;
                while y2 < self.height
                    invariant
                        y2 <= self.height,
                        b.wf(),
                        b.width == self.width,
                        b.height == self.height,
                        forall|xx: int, yy: int|
                            0 <= xx < self.width && 0 <= yy < self.height ==> #[trigger] b.idx(
                                xx,
                                yy,
                            ) == if xx < x || (xx == x && yy < y2) {
                                self.autofill_cell(*rules, xx, yy)
                            } else {
                                self.row_phase_cell(*rules, xx, yy)
                            },
                        changed ==> self.any_forced(*rules),
                        !changed ==> forall|xx: int, yy: int|
                            0 <= xx < self.width && 0 <= yy < self.height ==> #[trigger] self.row_forced_tile(
                                *rules,
                                xx,
                                yy,
                            ) is None,
                        !changed ==> forall|xx: int, yy: int|
                            0 <= xx < self.width && 0 <= yy < self.height && (xx < x || (xx == x
                                && yy < y2)) ==> #[trigger] self.col_forced_tile(
                                *rules,
                                xx,
                                yy,
                            ) is None,
                    decreases self.height - y2,
                {
                    let t = accum[y2];
                    if trial[y2] == Tile::Empty {
                        if t == AutoFillTile::CanBeFilled {
                            b.set_at(x, y2, Tile::Filled);
                            changed = true;
                            proof {
                                assert(self.col_forced_tile(*rules, x as int, y2 as int)
                                    == Some(Tile::Filled));
                                assert(self.any_forced(*rules));
                            }
                        } else if t == AutoFillTile::CanBeCrossedOut {
                            b.set_at(x, y2, Tile::CrossedOut);
                            changed = true;
                            proof {
                                assert(self.col_forced_tile(*rules, x as int, y2 as int)
                                    == Some(Tile::CrossedOut));
                                assert(self.any_forced(*rules));
                            }
                        }
                    }
                    proof {
                        assert(b.idx(x as int, y2 as int) == self.autofill_cell(
                            *rules,
                            x as int,
                            y2 as int,
                        ));
                    }
                    y2 += 1;
                }
            } else {
                proof {
                    assert forall|yy: int|
                        0 <= yy < self.height implies #[trigger] self.col_forced_tile(
                        *rules,
                        x as int,
                        yy,
                    ) is None by {}
                    assert forall|xx: int, yy: int|
                        0 <= xx < self.width && 0 <= yy < self.height implies #[trigger] b.idx(
                        xx,
                        yy,
                    ) == if xx < x + 1 {
                        self.autofill_cell(*rules, xx, yy)
                    } else {
                        self.row_phase_cell(*rules, xx, yy)
                    } by {
                        if xx == x {
                            assert(self.col_forced_tile(*rules, xx, yy) is None);
                        }
                    }
                }
            }
            x += 1;
        }

        if changed {
            Some(b)
        } else {
            None
        }
    }

    /// Column `x` of the grid as a flat vector.
    fn make_col_slice(&self, x: usize) -> (v: Vec<Tile>)
        requires
            self.wf(),
            x < self.width,
        ensures
            v@ == self.col_seq(x as int),
    {
        let mut v: Vec<Tile> = Vec::new();
        let mut y: usize = 0;
        while y < self.height
            invariant
                y <= self.height,
                self.wf(),
                x < self.width,
                v@.len() == y,
                forall|j: int| 0 <= j < y ==> v@[j] == self.idx(x as int, j),
            decreases self.height - y,
        {
            v.push(self.at(x, y));
            y += 1;
        }
        proof {
            assert(v@ =~= self.col_seq(x as int));
        }
        v
    }
}

// ---------------------------------------------------------------------------
// Laws of the autofill pass
// ---------------------------------------------------------------------------

/// Infeasibility is silent: a row whose fixed cells contradict its rule has
/// no valid completion, and such a row forces none of its cells — the pass
/// reports nothing for it rather than failing.
pub proof fn lemma_unsolvable_row_forces_nothing(b: Board, rules: Rules, x: int, y: int)
    requires
        !sol_exists(b.row_seq(y), rules.row_rules@[y]@, 0, 0),
    ensures
        b.row_forced_tile(rules, x, y) is None,
{
}

/// Infeasibility is silent for columns as well.
pub proof fn lemma_unsolvable_col_forces_nothing(b: Board, rules: Rules, x: int, y: int)
    requires
        !sol_exists(b.col_seq(x), rules.col_rules@[x]@, 0, 0),
    ensures
        b.col_forced_tile(rules, x, y) is None,
{
}

/// Tie-break determinism: rows are applied before columns, so where a
/// row and a column force the same cell to different tiles, the column's
/// tile is the one a pass writes.
pub proof fn lemma_column_wins(b: Board, rules: Rules, x: int, y: int)
    requires
        b.col_forced_tile(rules, x, y) is Some,
    ensures
        b.autofill_cell(rules, x, y) == b.col_forced_tile(rules, x, y)->0,
{
}

/// Respect of fixed cells: a pass never alters a cell that is already
/// `Filled` or `CrossedOut` — only `Empty` cells can be forced.
pub proof fn lemma_autofill_respects_fixed(b: Board, rules: Rules, x: int, y: int)
    requires
        0 <= x < b.width,
        0 <= y < b.height,
        b.idx(x, y) != Tile::Empty,
    ensures
        b.autofill_cell(rules, x, y) == b.idx(x, y),
{
}

/// The number of `Empty` cells in a line from position `p` on.
pub open spec fn count_empty_from(s: Seq<Tile>, p: int) -> int
    decreases s.len() - p,
{
    if p < 0 || p >= s.len() {
        0
    } else {
        (if s[p] == Tile::Empty {
            1int
        } else {
            0int
        }) + count_empty_from(s, p + 1)
    }
}

/// The number of `Empty` cells in the first `y` rows of a board.
pub open spec fn empties_in_rows(b: Board, y: int) -> int
    decreases y,
{
    if y <= 0 {
        0
    } else {
        empties_in_rows(b, y - 1) + count_empty_from(b.row_seq(y - 1), 0)
    }
}

/// The number of `Empty` cells of the whole board.
pub open spec fn board_empties(b: Board) -> int {
    empties_in_rows(b, b.height as int)
}

proof fn lemma_count_empty_le(s1: Seq<Tile>, s2: Seq<Tile>, p: int)
    requires
        s1.len() == s2.len(),
        forall|i: int| 0 <= i < s1.len() && #[trigger] s2[i] == Tile::Empty ==> s1[i] == Tile::Empty,
    ensures
        count_empty_from(s2, p) <= count_empty_from(s1, p),
    decreases s1.len() - p,
{
    if 0 <= p < s1.len() {
        lemma_count_empty_le(s1, s2, p + 1);
    }
}

proof fn lemma_count_empty_lt(s1: Seq<Tile>, s2: Seq<Tile>, p: int, w: int)
    requires
        s1.len() == s2.len(),
        forall|i: int| 0 <= i < s1.len() && #[trigger] s2[i] == Tile::Empty ==> s1[i] == Tile::Empty,
        p <= w < s1.len(),
        0 <= p,
        s1[w] == Tile::Empty,
        s2[w] != Tile::Empty,
    ensures
        count_empty_from(s2, p) < count_empty_from(s1, p),
    decreases s1.len() - p,
{
    if p == w {
        lemma_count_empty_le(s1, s2, p + 1);
    } else {
        lemma_count_empty_lt(s1, s2, p + 1, w);
    }
}

proof fn lemma_empties_rows_lt(b1: Board, b2: Board, y: int, wx: int, wy: int)
    requires
        b1.wf(),
        b2.width == b1.width,
        b2.height == b1.height,
        forall|x: int, yy: int|
            0 <= x < b1.width && 0 <= yy < b1.height && #[trigger] b2.idx(x, yy) == Tile::Empty
                ==> b1.idx(x, yy) == Tile::Empty,
        0 <= wx < b1.width,
        0 <= wy < b1.height,
        b1.idx(wx, wy) == Tile::Empty,
        b2.idx(wx, wy) != Tile::Empty,
        0 <= y <= b1.height,
    ensures
        empties_in_rows(b2, y) <= empties_in_rows(b1, y),
        y > wy ==> empties_in_rows(b2, y) < empties_in_rows(b1, y),
    decreases y,
{
    if y > 0 {
        lemma_empties_rows_lt(b1, b2, y - 1, wx, wy);
        let r1 = b1.row_seq(y - 1);
        let r2 = b2.row_seq(y - 1);
        assert forall|i: int|
            0 <= i < r1.len() && #[trigger] r2[i] == Tile::Empty implies r1[i] == Tile::Empty by {
            assert(b2.idx(i, y - 1) == Tile::Empty);
        }
        if y - 1 == wy {
            assert(r1[wx] == Tile::Empty && r2[wx] != Tile::Empty);
            lemma_count_empty_lt(r1, r2, 0, wx);
        } else {
            lemma_count_empty_le(r1, r2, 0);
        }
    }
}

/// Progress towards a fixed point: a pass that finds any forced cell
/// strictly reduces the number of `Empty` cells, and no cell ever goes
/// back to `Empty`.  Applying `autofill` to its own output therefore
/// reaches, after at most as many passes as there are cells, a board on
/// which it returns `None` — there is no oscillation.
pub proof fn lemma_autofill_progress(b: Board, rules: Rules, b2: Board)
    requires
        b.wf(),
        b.any_forced(rules),
        b2.width == b.width,
        b2.height == b.height,
        forall|x: int, y: int|
            0 <= x < b.width && 0 <= y < b.height ==> #[trigger] b2.idx(x, y) == b.autofill_cell(
                rules,
                x,
                y,
            ),
    ensures
        board_empties(b2) < board_empties(b),
{
    // No write ever makes a cell `Empty`.
    assert forall|x: int, y: int|
        0 <= x < b.width && 0 <= y < b.height && #[trigger] b2.idx(x, y) == Tile::Empty
        implies b.idx(x, y) == Tile::Empty by {
        assert(b2.idx(x, y) == b.autofill_cell(rules, x, y));
    }
    // Some forced cell was `Empty` and is overwritten with a tile.
    let (wx, wy) = choose|x: int, y: int|
        #![trigger b.row_forced_tile(rules, x, y)]
        #![trigger b.col_forced_tile(rules, x, y)]
        0 <= x < b.width && 0 <= y < b.height && (b.row_forced_tile(rules, x, y) is Some
            || b.col_forced_tile(rules, x, y) is Some)
    ;
    assert(b.idx(wx, wy) == Tile::Empty);
    assert(b2.idx(wx, wy) != Tile::Empty);
    lemma_empties_rows_lt(b, b2, b.height as int, wx, wy);
}

/// In a `w` x `h` row-major grid, the flat index of in-bounds coordinates is
/// itself in bounds.
proof fn lemma_rm_index_bounds(w: int, h: int, x: int, y: int) by (nonlinear_arith)
    requires
        0 < w,
        0 <= x < w,
        0 <= y < h,
    ensures
        0 <= y * w + x < w * h,
{
}

/// Distinct in-bounds coordinates of a row-major grid have distinct flat
/// indices.
proof fn lemma_rm_index_injective(w: int, x1: int, y1: int, x2: int, y2: int) by (nonlinear_arith)
    requires
        0 < w,
        0 <= x1 < w,
        0 <= x2 < w,
        0 <= y1,
        0 <= y2,
        !(x1 == x2 && y1 == y2),
    ensures
        y1 * w + x1 != y2 * w + x2,
{
}

} // verus!
