//! The puzzle: clue rules for every row and column, plus an undo/redo
//! history of board snapshots.

use vstd::prelude::*;

use crate::board::Board;
use crate::board::Tile;
use crate::solver::rule_positive;

verus! {

/// One line's clue: the ordered lengths of its filled runs.
pub type Rule = Vec<u32>;

/// One rule per column and one per row.
pub struct Rules {
    pub col_rules: Vec<Rule>,
    pub row_rules: Vec<Rule>,
}

impl Rules {
    /// The rules fit a `width` x `height` board: one rule per column and
    /// per row, every run length positive.
    pub open spec fn wf_for(self, width: int, height: int) -> bool {
        &&& self.col_rules@.len() == width
        &&& self.row_rules@.len() == height
        &&& forall|i: int| 0 <= i < width ==> rule_positive(#[trigger] self.col_rules@[i]@)
        &&& forall|i: int| 0 <= i < height ==> rule_positive(#[trigger] self.row_rules@[i]@)
    }
}

/// The puzzle being played: its clues and the history of board snapshots
/// that undo and redo walk through.
pub struct Puzzle {
    pub width: usize,
    pub height: usize,
    pub rules: Rules,
    pub history: Vec<Board>,
    pub curr_history: usize,
}

impl Puzzle {
    /// Positive dimensions within the grid's coordinate limits, fitting
    /// rules, and a non-empty history of matching well-formed boards with
    /// the cursor inside it.
    pub open spec fn wf(self) -> bool {
        &&& 0 < self.width
        &&& 0 < self.height
        &&& self.width <= u32::MAX
        &&& self.height <= u32::MAX
        &&& self.width * self.height <= usize::MAX
        &&& self.rules.wf_for(self.width as int, self.height as int)
        &&& 1 <= self.history@.len()
        &&& self.curr_history < self.history@.len()
        &&& forall|i: int|
            0 <= i < self.history@.len() ==> (#[trigger] self.history@[i]).wf()
                && self.history@[i].width == self.width && self.history@[i].height == self.height
    }

    /// A fresh puzzle with no clues: every rule is the empty list.
    pub fn new(width: usize, height: usize) -> (p: Puzzle)
        requires
            0 < width,
            0 < height,
            width <= u32::MAX,
            height <= u32::MAX,
            width * height <= usize::MAX,
        ensures
            p.wf(),
            p.width == width,
            p.height == height,
            p.history@.len() == 1,
            p.curr_history == 0,
            forall|i: int| 0 <= i < width ==> (#[trigger] p.rules.col_rules@[i])@.len() == 0,
            forall|i: int| 0 <= i < height ==> (#[trigger] p.rules.row_rules@[i])@.len() == 0,
    {
        let mut col_rules: Vec<Rule> = Vec::new();
        let mut i: usize = 0;
        while i < width
            invariant
                i <= width,
                col_rules@.len() == i,
                forall|j: int| 0 <= j < i ==> (#[trigger] col_rules@[j])@.len() == 0,
            decreases width - i,
        {
            col_rules.push(Vec::new());
            i += 1;
        }
        let mut row_rules: Vec<Rule> = Vec::new();
        let mut j: usize = 0;
        while j < height
            invariant
                j <= height,
                row_rules@.len() == j,
                forall|jj: int| 0 <= jj < j ==> (#[trigger] row_rules@[jj])@.len() == 0,
            decreases height - j,
        {
            row_rules.push(Vec::new());
            j += 1;
        }
        Puzzle::new_with_rules(width, height, col_rules, row_rules)
    }

    /// A fresh puzzle with the given clues and an all-`Empty` first board.
    pub fn new_with_rules(width: usize, height: usize, col_rules: Vec<Rule>, row_rules: Vec<Rule>)
        -> (p: Puzzle)
        requires
            0 < width,
            0 < height,
            width <= u32::MAX,
            height <= u32::MAX,
            width * height <= usize::MAX,
            col_rules@.len() == width,
            row_rules@.len() == height,
            forall|i: int| 0 <= i < width ==> rule_positive(#[trigger] col_rules@[i]@),
            forall|i: int| 0 <= i < height ==> rule_positive(#[trigger] row_rules@[i]@),
        ensures
            p.wf(),
            p.width == width,
            p.height == height,
            p.rules.col_rules == col_rules,
            p.rules.row_rules == row_rules,
            p.history@.len() == 1,
            p.curr_history == 0,
            forall|x: int, y: int|
                0 <= x < width && 0 <= y < height ==> p.history@[0].idx(x, y) == Tile::Empty,
    {
        let b = Board::new(width, height);
        let mut h: Vec<Board> = Vec::new();
        h.push(b);
        Puzzle {
            width,
            height,
            rules: Rules { col_rules, row_rules },
            history: h,
            curr_history: 0,
        }
    }

    /// The board the cursor points at.
    pub fn get_board(&self) -> (b: &Board)
        requires
            self.wf(),
        ensures
            *b == self.history@[self.curr_history as int],
            b.wf(),
            b.width == self.width,
            b.height == self.height,
    {
        &self.history[self.curr_history]
    }

    /// The puzzle's clues.
    pub fn get_rules(&self) -> (r: &Rules)
        ensures
            *r == self.rules,
    {
        &self.rules
    }

    /// Steps the cursor one snapshot back, if one exists.
    pub fn undo(&mut self)
        requires
            old(self).wf(),
        ensures
            final(self).wf(),
            final(self).curr_history == if old(self).curr_history > 0 {
                old(self).curr_history - 1
            } else {
                0int
            },
            final(self).width == old(self).width,
            final(self).height == old(self).height,
            final(self).rules == old(self).rules,
            final(self).history == old(self).history,
    {
        if self.curr_history > 0 {
            self.curr_history = self.curr_history - 1;
        }
    }

    /// Steps the cursor one snapshot forward, if one exists.
    pub fn redo(&mut self)
        requires
            old(self).wf(),
        ensures
            final(self).wf(),
            final(self).curr_history == if old(self).curr_history + 1 < old(
                self,
            ).history@.len() {
                old(self).curr_history + 1
            } else {
                old(self).curr_history as int
            },
            final(self).width == old(self).width,
            final(self).height == old(self).height,
            final(self).rules == old(self).rules,
            final(self).history == old(self).history,
    {
        let n = self.history.len();
        if self.curr_history + 1 < n {
            self.curr_history = self.curr_history + 1;
        }
    }

    /// Records a new board: snapshots past the cursor are discarded, the
    /// board is appended, and the cursor moves onto it.
    pub fn update(&mut self, board: Board)
        requires
            old(self).wf(),
            board.wf(),
            board.width == old(self).width,
            board.height == old(self).height,
        ensures
            final(self).wf(),
            final(self).width == old(self).width,
            final(self).height == old(self).height,
            final(self).rules == old(self).rules,
            final(self).history@ == old(self).history@.subrange(
                0,
                old(self).curr_history + 1,
            ).push(board),
            final(self).curr_history == old(self).curr_history + 1,
    {
        while self.history.len() > self.curr_history + 1
            invariant
                self.wf(),
                self.width == old(self).width,
                self.height == old(self).height,
                self.rules == old(self).rules,
                self.curr_history == old(self).curr_history,
                self.curr_history + 1 <= self.history@.len(),
                self.history@.len() <= old(self).history@.len(),
                self.history@ == old(self).history@.subrange(0, self.history@.len() as int),
            decreases self.history@.len(),
        {
            self.history.pop();
            proof {
                assert(self.history@ =~= old(self).history@.subrange(
                    0,
                    self.history@.len() as int,
                ));
            }
        }
        self.history.push(board);
        self.curr_history = self.history.len() - 1;
    }
}

} // verus!
