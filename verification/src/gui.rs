//! The interface's state machine: which button is held, which paint is
//! selected, the pan offset and zoom of the board view, and the board copy
//! being edited during a drag.
//!
//! The windowing layer owns the event pump and the renderer; it feeds each
//! event into these handlers as plain values and performs the returned
//! action.

use vstd::prelude::*;

use crate::action::PicrossAction;
use crate::board::Board;
use crate::board::Tile;
use crate::gfx::FONT_HEIGHT;
use crate::gfx::TILE_HEIGHT;
use crate::gfx::TILE_WIDTH;
use crate::gfx::TOOLBAR_BUTTON_HEIGHT;
use crate::gfx::TOOLBAR_BUTTON_WIDTH;
use crate::gfx::TOOLBAR_PAINT_WIDTH;
use crate::gfx::TOOLBAR_UNDO_REDO_WIDTH;
use crate::gfx::spec_text_pixel_width;
use crate::gfx::text_pixel_width;

verus! {

pub const MIN_TOOLBAR_WIDTH: u32 = 3 + TOOLBAR_UNDO_REDO_WIDTH + 2 + TOOLBAR_UNDO_REDO_WIDTH + 2
    + TOOLBAR_PAINT_WIDTH + 2 + (TOOLBAR_PAINT_WIDTH - 1) * 2 + 1 + 3;

pub const DEFAULT_SCREEN_WIDTH: u32 = 640;

pub const DEFAULT_SCREEN_HEIGHT: u32 = 400;

/// `(width, height, toolbar scale)` of the window.
pub type ScreenSize = (u32, u32, u32);

/// What the pointer is in the middle of doing.
#[derive(Clone, Copy, PartialEq, Eq, Structural, Debug)]
pub enum GuiMode {
    Neutral,
    HoldLMB,
    HoldRMB,
    Pan,
}

/// A pressed key, as far as the state machine cares.
#[derive(Clone, Copy, PartialEq, Eq, Structural, Debug)]
pub enum Key {
    Z,
    X,
    A,
    Num1,
    Num2,
    Num3,
    Other,
}

/// The interface's state between events.
pub struct GuiState {
    pub mode: GuiMode,
    pub selected_paint: Tile,
    /// The copy of the board being edited while a button is held.
    pub board: Option<Board>,
    pub new_changes: bool,
    pub screen_size: ScreenSize,
    pub board_scale: u32,
    pub offset_x: i32,
    pub offset_y: i32,
    pub board_pixel_width: u32,
    pub board_pixel_height: u32,
    pub row_rule_max_pixel_width: u32,
    pub col_rule_max_pixel_height: u32,
    pub last_mouse_x: i32,
    pub last_mouse_y: i32,
    /// The hovered cell, to highlight its row and column.
    pub highlight: Option<(u32, u32)>,
}

/// The toolbar scale that fits a window: at least 1, no wider than the
/// toolbar allows and growing with the window's height.
pub open spec fn spec_toolbar_scale(screen_w: int, screen_h: int) -> int {
    let toolbar_w = MIN_TOOLBAR_WIDTH + TOOLBAR_BUTTON_WIDTH + 3;
    let xs = screen_w / (toolbar_w as int);
    let ys = (screen_h + 400) / 400;
    let s = if xs < ys {
        xs
    } else {
        ys
    };
    if s < 1 {
        1
    } else {
        s
    }
}

impl GuiState {
    /// The state's standing invariant: the zoom stays in its small range.
    pub open spec fn wf(self) -> bool {
        1 <= self.board_scale <= 5
    }

    pub fn calc_screen_size_and_scale(screen_w: u32, screen_h: u32) -> (r: ScreenSize)
        requires
            screen_h + 400 <= u32::MAX,
        ensures
            r.0 == screen_w,
            r.1 == screen_h,
            r.2 == spec_toolbar_scale(screen_w as int, screen_h as int),
    {
        let toolbar_w = MIN_TOOLBAR_WIDTH + TOOLBAR_BUTTON_WIDTH + 3;
        let toolbar_x_scale = screen_w / toolbar_w;
        let toolbar_y_scale = (screen_h + 400) / 400;
        let s = if toolbar_x_scale < toolbar_y_scale {
            toolbar_x_scale
        } else {
            toolbar_y_scale
        };
        let toolbar_scale = if s < 1 {
            1
        } else {
            s
        };
        (screen_w, screen_h, toolbar_scale)
    }

    pub fn new(screen_w: u32, screen_h: u32) -> (s: GuiState)
        requires
            screen_h + 400 <= u32::MAX,
        ensures
            s.wf(),
            s.mode == GuiMode::Neutral,
            s.selected_paint == Tile::Filled,
            s.board is None,
            s.new_changes == false,
            s.screen_size.0 == screen_w,
            s.screen_size.1 == screen_h,
            s.screen_size.2 == spec_toolbar_scale(screen_w as int, screen_h as int),
            s.board_scale == 1,
            s.offset_x == 0 && s.offset_y == 0,
            s.board_pixel_width == 0 && s.board_pixel_height == 0,
            s.row_rule_max_pixel_width == 0 && s.col_rule_max_pixel_height == 0,
            s.last_mouse_x == 0 && s.last_mouse_y == 0,
            s.highlight is None,
    {
        let screen_size = GuiState::calc_screen_size_and_scale(screen_w, screen_h);
        GuiState {
            mode: GuiMode::Neutral,
            selected_paint: Tile::Filled,
            board: None,
            new_changes: false,
            screen_size,
            board_scale: 1,
            offset_x: 0,
            offset_y: 0,
            board_pixel_width: 0,
            board_pixel_height: 0,
            row_rule_max_pixel_width: 0,
            col_rule_max_pixel_height: 0,
            last_mouse_x: 0,
            last_mouse_y: 0,
            highlight: None,
        }
    }

    /// Undo, redo, autofill, or a paint choice; anything else while a
    /// button is held is ignored.
    pub fn on_key_down(&mut self, key: Key) -> (r: PicrossAction)
        requires
            old(self).wf(),
        ensures
            final(self).wf(),
            old(self).mode != GuiMode::Neutral ==> *final(self) == *old(self) && r is NoOp,
            old(self).mode == GuiMode::Neutral ==> {
                &&& (r is Undo <==> key == Key::Z)
                &&& (r is Redo <==> key == Key::X)
                &&& (r is AutoFill <==> key == Key::A)
                &&& final(self).selected_paint == (match key {
                    Key::Num1 => Tile::Empty,
                    Key::Num2 => Tile::CrossedOut,
                    Key::Num3 => Tile::Filled,
                    _ => old(self).selected_paint,
                })
                &&& *final(self) == (GuiState { selected_paint: final(self).selected_paint, ..*old(self) })
            },
    {
        if self.mode != GuiMode::Neutral {
            return PicrossAction::NoOp;
        }
        match key {
            Key::Z => {
                return PicrossAction::Undo;
            },
            Key::X => {
                return PicrossAction::Redo;
            },
            Key::A => {
                return PicrossAction::AutoFill;
            },
            Key::Num1 => {
                self.selected_paint = Tile::Empty;
            },
            Key::Num2 => {
                self.selected_paint = Tile::CrossedOut;
            },
            Key::Num3 => {
                self.selected_paint = Tile::Filled;
            },
            Key::Other => {},
        }
        PicrossAction::NoOp
    }

    /// A released left button ends a drag: the edited board is handed out
    /// when it changed anything, else dropped.
    pub fn on_lmb_up(&mut self) -> (r: PicrossAction)
        requires
            old(self).wf(),
        ensures
            final(self).wf(),
            old(self).mode != GuiMode::HoldLMB ==> *final(self) == *old(self) && r is NoOp,
            old(self).mode == GuiMode::HoldLMB ==> {
                &&& final(self).mode == GuiMode::Neutral
                &&& final(self).board is None
                &&& (if old(self).board is Some && old(self).new_changes {
                    r == PicrossAction::Update(old(self).board->0)
                } else {
                    r is NoOp
                })
                &&& *final(self) == (GuiState {
                    mode: GuiMode::Neutral,
                    board: None,
                    ..*old(self)
                })
            },
    {
        if self.mode != GuiMode::HoldLMB {
            return PicrossAction::NoOp;
        }
        self.mode = GuiMode::Neutral;
        if self.board.is_some() && self.new_changes {
            let b = self.board.take();
            match b {
                Some(b) => {
                    return PicrossAction::Update(b);
                },
                None => {},
            }
        } else {
            self.board = None;
        }
        PicrossAction::NoOp
    }

    /// A released right button, likewise.
    pub fn on_rmb_up(&mut self) -> (r: PicrossAction)
        requires
            old(self).wf(),
        ensures
            final(self).wf(),
            old(self).mode != GuiMode::HoldRMB ==> *final(self) == *old(self) && r is NoOp,
            old(self).mode == GuiMode::HoldRMB ==> {
                &&& final(self).mode == GuiMode::Neutral
                &&& final(self).board is None
                &&& (if old(self).board is Some && old(self).new_changes {
                    r == PicrossAction::Update(old(self).board->0)
                } else {
                    r is NoOp
                })
                &&& *final(self) == (GuiState {
                    mode: GuiMode::Neutral,
                    board: None,
                    ..*old(self)
                })
            },
    {
        if self.mode != GuiMode::HoldRMB {
            return PicrossAction::NoOp;
        }
        self.mode = GuiMode::Neutral;
        if self.board.is_some() && self.new_changes {
            let b = self.board.take();
            match b {
                Some(b) => {
                    return PicrossAction::Update(b);
                },
                None => {},
            }
        } else {
            self.board = None;
        }
        PicrossAction::NoOp
    }

    /// A pressed middle button starts panning from the pointer's position.
    pub fn on_mmb(&mut self, mx: i32, my: i32) -> (r: PicrossAction)
        requires
            old(self).wf(),
        ensures
            final(self).wf(),
            r is NoOp,
            old(self).mode != GuiMode::Neutral ==> *final(self) == *old(self),
            old(self).mode == GuiMode::Neutral ==> *final(self) == (GuiState {
                mode: GuiMode::Pan,
                last_mouse_x: mx,
                last_mouse_y: my,
                ..*old(self)
            }),
    {
        if self.mode != GuiMode::Neutral {
            return PicrossAction::NoOp;
        }
        self.mode = GuiMode::Pan;
        self.last_mouse_x = mx;
        self.last_mouse_y = my;
        PicrossAction::NoOp
    }

    pub fn on_mmb_up(&mut self) -> (r: PicrossAction)
        requires
            old(self).wf(),
        ensures
            final(self).wf(),
            r is NoOp,
            *final(self) == (GuiState { mode: GuiMode::Neutral, ..*old(self) }),
    {
        self.mode = GuiMode::Neutral;
        PicrossAction::NoOp
    }

    /// The wheel zooms the board view, within its small range.
    pub fn on_wheel(&mut self, y: i32) -> (r: PicrossAction)
        requires
            old(self).wf(),
            y <= i32::MAX - 5,
        ensures
            final(self).wf(),
            r is NoOp,
            final(self).board_scale == (if old(self).board_scale + y < 1 {
                1int
            } else if old(self).board_scale + y > 5 {
                5int
            } else {
                old(self).board_scale + y
            }),
            *final(self) == (GuiState { board_scale: final(self).board_scale, ..*old(self) }),
    {
        let s = self.board_scale as i32 + y;
        let s = if s > 5 {
            5
        } else {
            s
        };
        let s = if s < 1 {
            1
        } else {
            s
        };
        self.board_scale = s as u32;
        PicrossAction::NoOp
    }
}

/// The pixel width of one clue's digit row at scale 1: each number's
/// glyphs plus the gaps between neighbouring numbers.
pub open spec fn spec_rule_width_from(rule: Seq<u32>, j: int) -> int
    decreases rule.len() - j,
{
    if j < 0 || j >= rule.len() {
        0
    } else {
        spec_text_pixel_width(rule[j] as int, 1) + spec_rule_width_from(rule, j + 1)
    }
}

pub open spec fn spec_rule_width(rule: Seq<u32>) -> int {
    if rule.len() == 0 {
        0
    } else {
        spec_rule_width_from(rule, 0) + 5 * (rule.len() - 1)
    }
}

/// The pixel height of one clue's digit column at scale 1.
pub open spec fn spec_rule_height(n: int) -> int {
    if n > 0 {
        FONT_HEIGHT * n + 2 * (n - 1)
    } else {
        0
    }
}

proof fn lemma_rule_width_from_nonneg(rule: Seq<u32>, j: int)
    ensures
        0 <= spec_rule_width_from(rule, j),
        j == 0 && rule.len() > 0 ==> 7 <= spec_rule_width_from(rule, j),
    decreases rule.len() - j,
{
    if 0 <= j < rule.len() {
        lemma_rule_width_from_nonneg(rule, j + 1);
        crate::gfx::lemma_count_digits_pos(rule[j] as int);
    }
}

/// The width in pixels of a row's clue, drawn right of the board.
#[verifier::loop_isolation(false)]
pub fn calc_rule_width(rule: &Vec<u32>) -> (w: u32)
    requires
        spec_rule_width(rule@) <= u32::MAX,
    ensures
        w == spec_rule_width(rule@),
{
    let x_spacing: u32 = 5;
    let num_rules = rule.len();
    if num_rules == 0 {
        return 0;
    }
    proof {
        lemma_rule_width_from_nonneg(rule@, 0);
    }
    let mut sum: u32 = 0;
    let mut j: usize = 0;
    while j < num_rules
        invariant
            j <= num_rules,
            sum as int == spec_rule_width_from(rule@, 0) - spec_rule_width_from(rule@, j as int),
        decreases num_rules - j,
    {
        proof {
            crate::gfx::lemma_count_digits_u32(rule@[j as int] as int);
            lemma_rule_width_from_nonneg(rule@, j as int + 1);
        }
        sum = sum + text_pixel_width(rule[j], 1);
        j += 1;
    }
    proof {
        assert(5 * (num_rules - 1) <= u32::MAX - sum);
    }
    sum + x_spacing * (num_rules as u32 - 1)
}

/// The height in pixels of a column's clue, drawn above the board.
pub fn calc_rule_height(rule: &Vec<u32>) -> (h: u32)
    requires
        spec_rule_height(rule@.len() as int) <= u32::MAX,
    ensures
        h == spec_rule_height(rule@.len() as int),
{
    let y_spacing: u32 = 2;
    let num_rules = rule.len();
    if num_rules > 0 {
        FONT_HEIGHT * (num_rules as u32) + y_spacing * (num_rules as u32 - 1)
    } else {
        0
    }
}

/// The largest clue width among the first `j` rows.
pub open spec fn spec_max_rule_width(rs: Seq<Vec<u32>>, j: int) -> int
    decreases j,
{
    if j <= 0 {
        0
    } else {
        let prev = spec_max_rule_width(rs, j - 1);
        let w = spec_rule_width(rs[j - 1]@);
        if prev < w {
            w
        } else {
            prev
        }
    }
}

/// The largest clue height among the first `j` columns.
pub open spec fn spec_max_rule_height(rs: Seq<Vec<u32>>, j: int) -> int
    decreases j,
{
    if j <= 0 {
        0
    } else {
        let prev = spec_max_rule_height(rs, j - 1);
        let h = spec_rule_height(rs[j - 1]@.len() as int);
        if prev < h {
            h
        } else {
            prev
        }
    }
}

/// Division by two that rounds towards zero, as the machine's does.
pub open spec fn tdiv2(n: int) -> int {
    if n >= 0 {
        n / 2
    } else {
        -((-n) / 2)
    }
}

fn half(v: i32) -> (r: i32)
    ensures
        r == tdiv2(v as int),
{
    if v >= 0 {
        ((v as u32) / 2) as i32
    } else {
        let m = if v == i32::MIN {
            1u32 << 31
        } else {
            (-v) as u32
        };
        proof {
            assert((1u32 << 31) == 2147483648) by (bit_vector);
        }
        let m2 = m / 2;
        -(m2 as i32)
    }
}

/// The intermediate values of the view-placement arithmetic stay inside
/// the machine's integers.
pub open spec fn default_offset_in_range(s: GuiState) -> bool {
    let sh = s.screen_size.1 as int;
    let ts = s.screen_size.2 as int;
    let bs = s.board_scale as int;
    let t2: int = if bs < 2 {
        bs
    } else {
        2
    };
    &&& ts * 15 <= sh
    &&& s.screen_size.0 <= i32::MAX
    &&& sh <= i32::MAX
    &&& s.board_pixel_width + 2 <= u32::MAX
    &&& bs * (s.board_pixel_width + 2) <= i32::MAX
    &&& bs * 4 + t2 * s.row_rule_max_pixel_width <= i32::MAX
    &&& bs * (s.board_pixel_width + 2) + (bs * 4 + t2 * s.row_rule_max_pixel_width) * 2
        <= i32::MAX
    &&& bs * s.board_pixel_height <= i32::MAX
    &&& (sh - ts * 15) + bs * 4 + t2 * s.col_rule_max_pixel_height <= i32::MAX
}

/// Where the board's top-left corner goes by default: centred when it
/// fits, else pushed so that board and clues share the window best.
pub open spec fn spec_default_offset(s: GuiState) -> (int, int) {
    let sw = s.screen_size.0 as int;
    let sh = s.screen_size.1 as int;
    let ts = s.screen_size.2 as int;
    let bs = s.board_scale as int;
    let t2: int = if bs < 2 {
        bs
    } else {
        2
    };
    let canvas_w = sw;
    let canvas_h = sh - ts * 15;
    let sbw = bs * (s.board_pixel_width + 2);
    let stw = bs * 4 + t2 * s.row_rule_max_pixel_width;
    let ox = if canvas_w < sbw {
        tdiv2(canvas_w - sbw)
    } else if canvas_w < sbw + stw {
        canvas_w - sbw
    } else if canvas_w < sbw + stw * 2 {
        stw
    } else {
        tdiv2(canvas_w - sbw)
    };
    let oy = tdiv2(canvas_h - bs * s.board_pixel_height + bs * 4 + t2 * s.col_rule_max_pixel_height);
    (ox, oy)
}

/// What `default_offset_in_range` gives for each intermediate term.
proof fn lemma_offset_range_parts(s: GuiState) by (nonlinear_arith)
    requires
        s.wf(),
        default_offset_in_range(s),
    ensures
        s.board_pixel_width + 2 <= i32::MAX,
        s.row_rule_max_pixel_width <= i32::MAX,
        s.col_rule_max_pixel_height <= i32::MAX,
        s.board_pixel_height <= i32::MAX,
        0 <= (s.board_scale as int) * (s.board_pixel_width + 2),
        (s.board_scale as int) * (s.board_pixel_width + 2) + ((s.board_scale as int) * 4 + (if s.board_scale < 2 {
            s.board_scale as int
        } else {
            2int
        }) * s.row_rule_max_pixel_width) <= i32::MAX,
        0 <= (s.board_scale as int) * 4 + (if s.board_scale < 2 {
            s.board_scale as int
        } else {
            2int
        }) * s.row_rule_max_pixel_width,
        0 <= (if s.board_scale < 2 {
            s.board_scale as int
        } else {
            2int
        }) * s.col_rule_max_pixel_height <= i32::MAX,
        0 <= (s.board_scale as int) * s.board_pixel_height,
{
}

impl GuiState {
    pub fn calc_default_offset(&self) -> (r: (i32, i32))
        requires
            self.wf(),
            default_offset_in_range(*self),
        ensures
            r.0 == spec_default_offset(*self).0,
            r.1 == spec_default_offset(*self).1,
    {
        let (screen_w, screen_h, toolbar_scale) = self.screen_size;
        let board_scale = self.board_scale as i32;
        let text_scale = if board_scale < 2 {
            board_scale
        } else {
            2
        };
        proof {
            assert(TOOLBAR_BUTTON_HEIGHT + 6 == 15);
            lemma_offset_range_parts(*self);
        }
        let toolbar_h = toolbar_scale * (TOOLBAR_BUTTON_HEIGHT + 6);
        let canvas_w = screen_w as i32;
        let canvas_h = (screen_h - toolbar_h) as i32;
        let scaled_board_w = board_scale * ((self.board_pixel_width + 2) as i32);
        let scaled_text_w = board_scale * 4 + text_scale * (self.row_rule_max_pixel_width as i32);
        let offset_x = if canvas_w < scaled_board_w {
            half(canvas_w - scaled_board_w)
        } else if canvas_w < scaled_board_w + scaled_text_w {
            canvas_w - scaled_board_w
        } else if canvas_w < scaled_board_w + scaled_text_w * 2 {
            scaled_text_w
        } else {
            half(canvas_w - scaled_board_w)
        };
        let offset_y = half(
            canvas_h - board_scale * (self.board_pixel_height as i32) + board_scale * 4
                + text_scale * (self.col_rule_max_pixel_height as i32),
        );
        (offset_x, offset_y)
    }
}

proof fn lemma_max_rule_width_bounds(rs: Seq<Vec<u32>>, j: int)
    requires
        0 <= j <= rs.len(),
        forall|i: int| 0 <= i < rs.len() ==> spec_rule_width(#[trigger] rs[i]@) <= u32::MAX,
    ensures
        0 <= spec_max_rule_width(rs, j) <= u32::MAX,
    decreases j,
{
    if j > 0 {
        lemma_max_rule_width_bounds(rs, j - 1);
        lemma_rule_width_from_nonneg(rs[j - 1]@, 0);
    }
}

proof fn lemma_max_rule_height_bounds(rs: Seq<Vec<u32>>, j: int)
    requires
        0 <= j <= rs.len(),
        forall|i: int|
            0 <= i < rs.len() ==> spec_rule_height((#[trigger] rs[i]@).len() as int) <= u32::MAX,
    ensures
        0 <= spec_max_rule_height(rs, j) <= u32::MAX,
    decreases j,
{
    if j > 0 {
        lemma_max_rule_height_bounds(rs, j - 1);
    }
}

/// The view fields that a fresh puzzle sets: the board's pixel footprint
/// and the widest clue on each side.
pub open spec fn spec_after_rules(s: GuiState, puzzle: crate::puzzle::Puzzle) -> GuiState {
    GuiState {
        board_pixel_width: (17 * puzzle.width - 2) as u32,
        board_pixel_height: (17 * puzzle.height - 2) as u32,
        row_rule_max_pixel_width: spec_max_rule_width(
            puzzle.rules.row_rules@,
            puzzle.rules.row_rules@.len() as int,
        ) as u32,
        col_rule_max_pixel_height: spec_max_rule_height(
            puzzle.rules.col_rules@,
            puzzle.rules.col_rules@.len() as int,
        ) as u32,
        ..s
    }
}

impl GuiState {
    /// Sizes the view for a fresh puzzle and places its default offset,
    /// clamped so a too-large board shows its top-left corner and clues.
    #[verifier::loop_isolation(false)]
    pub fn on_new_puzzle(&mut self, puzzle: &crate::puzzle::Puzzle)
        requires
            old(self).wf(),
            puzzle.wf(),
            17 * puzzle.width <= u32::MAX,
            17 * puzzle.height <= u32::MAX,
            forall|i: int|
                0 <= i < puzzle.rules.row_rules@.len() ==> spec_rule_width(
                    #[trigger] puzzle.rules.row_rules@[i]@,
                ) <= u32::MAX,
            forall|i: int|
                0 <= i < puzzle.rules.col_rules@.len() ==> spec_rule_height(
                    (#[trigger] puzzle.rules.col_rules@[i]@).len() as int,
                ) <= u32::MAX,
            default_offset_in_range(spec_after_rules(*old(self), *puzzle)),
        ensures
            final(self).wf(),
            ({
                let s2 = spec_after_rules(*old(self), *puzzle);
                let o = spec_default_offset(s2);
                let ox1: int = if o.0 < s2.row_rule_max_pixel_width {
                    s2.row_rule_max_pixel_width as int
                } else {
                    o.0
                };
                let oy1: int = if o.1 < s2.col_rule_max_pixel_height {
                    s2.col_rule_max_pixel_height as int
                } else {
                    o.1
                };
                let ox2: int = if ox1 < 2 {
                    2
                } else {
                    ox1
                };
                let oy2: int = if oy1 < 2 {
                    2
                } else {
                    oy1
                };
                *final(self) == (GuiState { offset_x: ox2 as i32, offset_y: oy2 as i32, ..s2 })
            }),
    {
        let board_x_spacing = TILE_WIDTH + 2;
        let board_y_spacing = TILE_HEIGHT + 2;
        self.board_pixel_width = board_x_spacing * (puzzle.width as u32) - 2;
        self.board_pixel_height = board_y_spacing * (puzzle.height as u32) - 2;

        let row_rules = &puzzle.rules.row_rules;
        let mut row_max: u32 = 0;
        let mut i: usize = 0;
        proof {
            lemma_max_rule_width_bounds(row_rules@, row_rules@.len() as int);
        }
        while i < row_rules.len()
            invariant
                i <= row_rules@.len(),
                row_max == spec_max_rule_width(row_rules@, i as int),
            decreases row_rules@.len() - i,
        {
            let w = calc_rule_width(&row_rules[i]);
            if w > row_max {
                row_max = w;
            }
            i += 1;
        }
        self.row_rule_max_pixel_width = row_max;

        let col_rules = &puzzle.rules.col_rules;
        let mut col_max: u32 = 0;
        let mut j: usize = 0;
        proof {
            lemma_max_rule_height_bounds(col_rules@, col_rules@.len() as int);
        }
        while j < col_rules.len()
            invariant
                j <= col_rules@.len(),
                col_max == spec_max_rule_height(col_rules@, j as int),
            decreases col_rules@.len() - j,
        {
            let h = calc_rule_height(&col_rules[j]);
            if h > col_max {
                col_max = h;
            }
            j += 1;
        }
        self.col_rule_max_pixel_height = col_max;

        proof {
            assert(*self == spec_after_rules(*old(self), *puzzle));
            lemma_offset_range_parts(*self);
        }
        let (ox, oy) = self.calc_default_offset();
        let mut offset_x = ox;
        let mut offset_y = oy;
        if offset_x < self.row_rule_max_pixel_width as i32 {
            offset_x = self.row_rule_max_pixel_width as i32;
        }
        if offset_y < self.col_rule_max_pixel_height as i32 {
            offset_y = self.col_rule_max_pixel_height as i32;
        }
        if offset_x < 2 {
            offset_x = 2;
        }
        if offset_y < 2 {
            offset_y = 2;
        }
        self.offset_x = offset_x;
        self.offset_y = offset_y;
    }
}

/// The state with the window resized: the stored size and toolbar scale
/// change, nothing else yet.
pub open spec fn spec_after_resize(s: GuiState, new_w: u32, new_h: u32) -> GuiState {
    GuiState {
        screen_size: (new_w, new_h, spec_toolbar_scale(new_w as int, new_h as int) as u32),
        ..s
    }
}

pub open spec fn spec_abs(n: int) -> int {
    if n < 0 {
        -n
    } else {
        n
    }
}

impl GuiState {
    /// Follows a window resize: the offset moves towards its default, but
    /// never faster than the size changed.
    pub fn on_resize_window(&mut self, new_screen_w: u32, new_screen_h: u32)
        requires
            old(self).wf(),
            new_screen_h + 400 <= u32::MAX,
            old(self).screen_size.0 <= i32::MAX,
            old(self).screen_size.1 <= i32::MAX,
            default_offset_in_range(spec_after_resize(*old(self), new_screen_w, new_screen_h)),
            old(self).offset_x - spec_abs(new_screen_w - old(self).screen_size.0) >= i32::MIN,
            old(self).offset_x + spec_abs(new_screen_w - old(self).screen_size.0) <= i32::MAX,
            old(self).offset_y - spec_abs(new_screen_h - old(self).screen_size.1) >= i32::MIN,
            old(self).offset_y + spec_abs(new_screen_h - old(self).screen_size.1) <= i32::MAX,
        ensures
            final(self).wf(),
            ({
                let s2 = spec_after_resize(*old(self), new_screen_w, new_screen_h);
                let d = spec_default_offset(s2);
                let dx = spec_abs(new_screen_w - old(self).screen_size.0);
                let dy = spec_abs(new_screen_h - old(self).screen_size.1);
                let lo_x = old(self).offset_x - dx;
                let hi_x = old(self).offset_x + dx;
                let lo_y = old(self).offset_y - dy;
                let hi_y = old(self).offset_y + dy;
                let ox: int = if d.0 > hi_x {
                    hi_x
                } else if d.0 < lo_x {
                    lo_x
                } else {
                    d.0
                };
                let oy: int = if d.1 > hi_y {
                    hi_y
                } else if d.1 < lo_y {
                    lo_y
                } else {
                    d.1
                };
                *final(self) == (GuiState { offset_x: ox as i32, offset_y: oy as i32, ..s2 })
            }),
    {
        let (old_screen_w, old_screen_h, _) = self.screen_size;
        let old_offset_x = self.offset_x;
        let old_offset_y = self.offset_y;

        self.screen_size = GuiState::calc_screen_size_and_scale(new_screen_w, new_screen_h);

        let (desired_x, desired_y) = self.calc_default_offset();
        let dw = new_screen_w as i32 - old_screen_w as i32;
        let dh = new_screen_h as i32 - old_screen_h as i32;
        let diff_x = if dw < 0 {
            -dw
        } else {
            dw
        };
        let diff_y = if dh < 0 {
            -dh
        } else {
            dh
        };

        let min_x = if desired_x < old_offset_x + diff_x {
            desired_x
        } else {
            old_offset_x + diff_x
        };
        self.offset_x = if old_offset_x - diff_x > min_x {
            old_offset_x - diff_x
        } else {
            min_x
        };
        let min_y = if desired_y < old_offset_y + diff_y {
            desired_y
        } else {
            old_offset_y + diff_y
        };
        self.offset_y = if old_offset_y - diff_y > min_y {
            old_offset_y - diff_y
        } else {
            min_y
        };
    }
}

/// The cell under a pointer position relative to the board's origin, when
/// there is one.
pub open spec fn spec_tile_coord(board: Board, scale: int, mx: int, my: int) -> Option<(u32, u32)> {
    let x_spacing = scale * (TILE_WIDTH + 2);
    let y_spacing = scale * (TILE_HEIGHT + 2);
    if mx >= 0 && my >= 0 {
        let tx = mx / x_spacing;
        let ty = my / y_spacing;
        if tx < board.width && ty < board.height {
            Some((tx as u32, ty as u32))
        } else {
            None
        }
    } else {
        None
    }
}

/// The colour of one clue digit, from the confirmed runs at either end of
/// its line: green when its run is confirmed, red when the scan
/// contradicts the clue, neutral while it is still open.
pub open spec fn spec_pick_font(
    v: u32,
    len: int,
    head: Seq<u32>,
    head_idx: int,
    tail: Seq<u32>,
    tail_idx: int,
) -> crate::gfx::Font {
    if head.len() > len || tail.len() > len {
        crate::gfx::Font::Conflict
    } else if head_idx < head.len() {
        if v == head[head_idx] {
            crate::gfx::Font::Solved
        } else {
            crate::gfx::Font::Conflict
        }
    } else if tail_idx < tail.len() {
        if v == tail[tail_idx] {
            crate::gfx::Font::Solved
        } else {
            crate::gfx::Font::Conflict
        }
    } else {
        crate::gfx::Font::Unsolved
    }
}

/// Picks the font for the clue digit `v`, standing at `head_idx` counted
/// from the line's head and `tail_idx` counted from its tail, against the
/// segments confirmed from each end.
///
/// When both ends confirm the digit they must agree on it; the
/// preconditions state that consistency, which the scanners provide.
pub fn pick_font(
    v: u32,
    len: usize,
    head: &Vec<u32>,
    head_idx: usize,
    tail: &Vec<u32>,
    tail_idx: usize,
) -> (f: crate::gfx::Font)
    requires
        (head@.len() <= len && tail@.len() <= len && head_idx < head@.len() && v
            == head@[head_idx as int]) ==> (tail_idx >= tail@.len() || v
            == tail@[tail_idx as int]),
        (head@.len() <= len && tail@.len() <= len && head_idx >= head@.len() && tail_idx
            < tail@.len() && v == tail@[tail_idx as int]) ==> (head_idx >= head@.len() || v
            == head@[head_idx as int]),
    ensures
        f == spec_pick_font(v, len as int, head@, head_idx as int, tail@, tail_idx as int),
{
    if head.len() > len || tail.len() > len {
        crate::gfx::Font::Conflict
    } else if head_idx < head.len() {
        if v == head[head_idx] {
            crate::gfx::Font::Solved
        } else {
            crate::gfx::Font::Conflict
        }
    } else if tail_idx < tail.len() {
        if v == tail[tail_idx] {
            crate::gfx::Font::Solved
        } else {
            crate::gfx::Font::Conflict
        }
    } else {
        crate::gfx::Font::Unsolved
    }
}

/// A rectangle of the window, in pixels.
#[derive(Clone, Copy, PartialEq, Eq, Structural, Debug)]
pub struct PixelRect {
    pub x: i32,
    pub y: i32,
    pub w: u32,
    pub h: u32,
}

/// What clicking a toolbar widget does.
#[derive(Clone, Copy, PartialEq, Eq, Structural, Debug)]
pub enum WidgetType {
    Label,
    Undo,
    Redo,
    /// A paint pot: the tile it paints, and its active and inactive
    /// sprites.
    Paint(Tile, crate::gfx::Res, crate::gfx::Res),
}

/// One toolbar widget and where it sits.
#[derive(Clone, Copy, PartialEq, Eq, Structural, Debug)]
pub struct Widget {
    pub mode: WidgetType,
    pub rect: PixelRect,
}

/// The toolbar's name label fits only when the window is wide enough for
/// it beside the buttons.
pub open spec fn spec_label_visible(screen_size: ScreenSize) -> bool {
    screen_size.0 >= screen_size.2 * (MIN_TOOLBAR_WIDTH + TOOLBAR_BUTTON_WIDTH + 3)
}

pub fn is_picross_label_visible(screen_size: ScreenSize) -> (r: bool)
    requires
        screen_size.2 * (MIN_TOOLBAR_WIDTH + TOOLBAR_BUTTON_WIDTH + 3) <= u32::MAX,
    ensures
        r == spec_label_visible(screen_size),
{
    let (screen_w, _, toolbar_scale) = screen_size;
    let toolbar_w = MIN_TOOLBAR_WIDTH + TOOLBAR_BUTTON_WIDTH + 3;
    screen_w >= toolbar_scale * toolbar_w
}

/// The window's sizes keep the toolbar layout arithmetic in range.
pub open spec fn widgets_in_range(ss: ScreenSize) -> bool {
    let ts = ss.2 as int;
    &&& ts * 122 <= u32::MAX
    &&& ss.0 <= i32::MAX
    &&& ss.1 <= i32::MAX
    &&& ts * 12 <= ss.1
    &&& ts * 40 <= ss.0
    &&& ts * 106 <= i32::MAX
}

/// The toolbar's widgets for a window: the label when it fits, undo and
/// redo, and the three paint pots, the latter centred when there is room.
pub open spec fn spec_make_widgets(ss: ScreenSize) -> Seq<Widget> {
    let ts = ss.2 as int;
    let y = ss.1 - ts * 12;
    let palette_width = ts * 40;
    let label_visible = spec_label_visible(ss);
    let x_undo: int = if label_visible {
        ts * 59
    } else {
        ts * 3
    };
    let x_redo = x_undo + ts * 10;
    let centred = tdiv2(ss.0 - palette_width);
    let x_palette: int = if x_redo + ts * 10 > centred {
        x_redo + ts * 10
    } else {
        centred
    };
    let undo_redo = seq![
        Widget {
            mode: WidgetType::Undo,
            rect: PixelRect {
                x: x_undo as i32,
                y: y as i32,
                w: (ts * TOOLBAR_UNDO_REDO_WIDTH) as u32,
                h: (ts * TOOLBAR_BUTTON_HEIGHT) as u32,
            },
        },
        Widget {
            mode: WidgetType::Redo,
            rect: PixelRect {
                x: x_redo as i32,
                y: y as i32,
                w: (ts * TOOLBAR_UNDO_REDO_WIDTH) as u32,
                h: (ts * TOOLBAR_BUTTON_HEIGHT) as u32,
            },
        },
        Widget {
            mode: WidgetType::Paint(
                Tile::Empty,
                crate::gfx::Res::ToolbarActiveEmpty,
                crate::gfx::Res::ToolbarInactiveEmpty,
            ),
            rect: PixelRect {
                x: x_palette as i32,
                y: y as i32,
                w: (ts * TOOLBAR_PAINT_WIDTH) as u32,
                h: (ts * TOOLBAR_BUTTON_HEIGHT) as u32,
            },
        },
        Widget {
            mode: WidgetType::Paint(
                Tile::CrossedOut,
                crate::gfx::Res::ToolbarActiveCrossedOut,
                crate::gfx::Res::ToolbarInactiveCrossedOut,
            ),
            rect: PixelRect {
                x: (x_palette + ts * 15) as i32,
                y: y as i32,
                w: (ts * TOOLBAR_PAINT_WIDTH) as u32,
                h: (ts * TOOLBAR_BUTTON_HEIGHT) as u32,
            },
        },
        Widget {
            mode: WidgetType::Paint(
                Tile::Filled,
                crate::gfx::Res::ToolbarActiveFilled,
                crate::gfx::Res::ToolbarInactiveFilled,
            ),
            rect: PixelRect {
                x: (x_palette + ts * 27) as i32,
                y: y as i32,
                w: (ts * TOOLBAR_PAINT_WIDTH) as u32,
                h: (ts * TOOLBAR_BUTTON_HEIGHT) as u32,
            },
        },
    ];
    if label_visible {
        seq![
            Widget {
                mode: WidgetType::Label,
                rect: PixelRect {
                    x: (ts * 3) as i32,
                    y: y as i32,
                    w: (ts * TOOLBAR_BUTTON_WIDTH) as u32,
                    h: (ts * TOOLBAR_BUTTON_HEIGHT) as u32,
                },
            },
        ] + undo_redo
    } else {
        undo_redo
    }
}

/// The per-product bounds that the toolbar layout needs.
proof fn lemma_widget_scale(ts: int) by (nonlinear_arith)
    requires
        0 <= ts,
        ts * 122 <= u32::MAX,
        ts * 106 <= i32::MAX,
    ensures
        0 <= ts * 3 <= i32::MAX,
        0 <= ts * 10 <= i32::MAX,
        0 <= ts * 59 <= i32::MAX,
        ts * 59 + ts * 10 <= i32::MAX,
        ts * 3 + ts * 10 <= i32::MAX,
        ts * 59 + ts * 10 + ts * 10 <= i32::MAX,
        ts * 3 + ts * 10 + ts * 10 <= i32::MAX,
        ts * 59 + ts * 10 + ts * 10 + ts * 27 <= i32::MAX,
        ts * 3 + ts * 10 + ts * 10 + ts * 27 <= i32::MAX,
        0 <= 2 * (ts * 27) <= i32::MAX,
        0 <= ts * 15 <= ts * 27,
        0 <= ts * 8 <= u32::MAX,
        0 <= ts * 9 <= u32::MAX,
        0 <= ts * 12 <= u32::MAX,
        0 <= ts * 13 <= u32::MAX,
        0 <= ts * 40 <= u32::MAX,
        0 <= ts * 53 <= u32::MAX,
{
}

#[verifier::rlimit(30)]
pub fn make_widgets(screen_size: ScreenSize) -> (ws: Vec<Widget>)
    requires
        widgets_in_range(screen_size),
    ensures
        ws@ == spec_make_widgets(screen_size),
{
    let mut ws: Vec<Widget> = Vec::new();
    let (screen_w, screen_h, toolbar_scale) = screen_size;
    proof {
        assert(TOOLBAR_BUTTON_HEIGHT + 3 == 12);
        assert(TOOLBAR_PAINT_WIDTH - 1 == 12);
        assert(TOOLBAR_PAINT_WIDTH + 2 + 12 * 2 + 1 == 40);
        assert(3 + TOOLBAR_BUTTON_WIDTH + 3 == 59);
        assert(TOOLBAR_UNDO_REDO_WIDTH + 2 == 10);
        assert(TOOLBAR_PAINT_WIDTH + 2 == 15);
        assert(TOOLBAR_PAINT_WIDTH + 2 + 12 * 1 == 27);
        lemma_widget_scale(toolbar_scale as int);
    }
    let y = (screen_h - toolbar_scale * (TOOLBAR_BUTTON_HEIGHT + 3)) as i32;

    let paint_spacing = TOOLBAR_PAINT_WIDTH - 1;
    let palette_width = toolbar_scale * (TOOLBAR_PAINT_WIDTH + 2 + paint_spacing * 2 + 1);

    let label_visible = is_picross_label_visible(screen_size);
    let x_undo = if label_visible {
        (toolbar_scale * (3 + TOOLBAR_BUTTON_WIDTH + 3)) as i32
    } else {
        (toolbar_scale * 3) as i32
    };
    let x_redo = x_undo + (toolbar_scale * (TOOLBAR_UNDO_REDO_WIDTH + 2)) as i32;
    let centred = half((screen_w - palette_width) as i32);
    let reserved = x_redo + (toolbar_scale * (TOOLBAR_UNDO_REDO_WIDTH + 2)) as i32;
    let x_palette = if reserved > centred {
        reserved
    } else {
        centred
    };

    if label_visible {
        ws.push(
            Widget {
                mode: WidgetType::Label,
                rect: PixelRect {
                    x: (toolbar_scale * 3) as i32,
                    y,
                    w: toolbar_scale * TOOLBAR_BUTTON_WIDTH,
                    h: toolbar_scale * TOOLBAR_BUTTON_HEIGHT,
                },
            },
        );
    }
    ws.push(
        Widget {
            mode: WidgetType::Undo,
            rect: PixelRect {
                x: x_undo,
                y,
                w: toolbar_scale * TOOLBAR_UNDO_REDO_WIDTH,
                h: toolbar_scale * TOOLBAR_BUTTON_HEIGHT,
            },
        },
    );
    ws.push(
        Widget {
            mode: WidgetType::Redo,
            rect: PixelRect {
                x: x_redo,
                y,
                w: toolbar_scale * TOOLBAR_UNDO_REDO_WIDTH,
                h: toolbar_scale * TOOLBAR_BUTTON_HEIGHT,
            },
        },
    );
    ws.push(
        Widget {
            mode: WidgetType::Paint(
                Tile::Empty,
                crate::gfx::Res::ToolbarActiveEmpty,
                crate::gfx::Res::ToolbarInactiveEmpty,
            ),
            rect: PixelRect {
                x: x_palette,
                y,
                w: toolbar_scale * TOOLBAR_PAINT_WIDTH,
                h: toolbar_scale * TOOLBAR_BUTTON_HEIGHT,
            },
        },
    );
    ws.push(
        Widget {
            mode: WidgetType::Paint(
                Tile::CrossedOut,
                crate::gfx::Res::ToolbarActiveCrossedOut,
                crate::gfx::Res::ToolbarInactiveCrossedOut,
            ),
            rect: PixelRect {
                x: x_palette + (toolbar_scale * (TOOLBAR_PAINT_WIDTH + 2)) as i32,
                y,
                w: toolbar_scale * TOOLBAR_PAINT_WIDTH,
                h: toolbar_scale * TOOLBAR_BUTTON_HEIGHT,
            },
        },
    );
    ws.push(
        Widget {
            mode: WidgetType::Paint(
                Tile::Filled,
                crate::gfx::Res::ToolbarActiveFilled,
                crate::gfx::Res::ToolbarInactiveFilled,
            ),
            rect: PixelRect {
                x: x_palette + (toolbar_scale * (TOOLBAR_PAINT_WIDTH + 2 + paint_spacing * 1))
                    as i32,
                y,
                w: toolbar_scale * TOOLBAR_PAINT_WIDTH,
                h: toolbar_scale * TOOLBAR_BUTTON_HEIGHT,
            },
        },
    );
    proof {
        assert(ws@ =~= spec_make_widgets(screen_size));
    }
    ws
}

/// Whether the pointer position lands on the widget.
pub open spec fn spec_widget_hit(w: Widget, x: int, y: int) -> bool {
    &&& w.rect.x <= x <= w.rect.x + w.rect.w
    &&& w.rect.y <= y <= w.rect.y + w.rect.h
}

/// The first widget under the pointer, if any.
#[verifier::loop_isolation(false)]
pub fn find_widget<'a>(widgets: &'a Vec<Widget>, x: i32, y: i32) -> (r: Option<&'a Widget>)
    requires
        forall|i: int|
            0 <= i < widgets@.len() ==> {
                &&& (#[trigger] widgets@[i]).rect.w <= i32::MAX
                &&& widgets@[i].rect.h <= i32::MAX
                &&& widgets@[i].rect.x + widgets@[i].rect.w <= i32::MAX
                &&& widgets@[i].rect.y + widgets@[i].rect.h <= i32::MAX
            },
    ensures
        match r {
            None => forall|i: int|
                0 <= i < widgets@.len() ==> !spec_widget_hit(#[trigger] widgets@[i], x as int, y as int),
            Some(w) => exists|i: int|
                0 <= i < widgets@.len() && widgets@[i] == *w && spec_widget_hit(
                    #[trigger] widgets@[i],
                    x as int,
                    y as int,
                ) && (forall|j: int|
                    0 <= j < i ==> !spec_widget_hit(#[trigger] widgets@[j], x as int, y as int)),
        },
{
    let n = widgets.len();
    let mut i: usize = 0;
    while i < n
        invariant
            i <= n,
            forall|j: int| 0 <= j < i ==> !spec_widget_hit(#[trigger] widgets@[j], x as int, y as int),
        decreases n - i,
    {
        let w = &widgets[i];
        if w.rect.x <= x && x <= w.rect.x + (w.rect.w as i32) && w.rect.y <= y && y <= w.rect.y
            + (w.rect.h as i32) {
            return Some(w);
        }
        i += 1;
    }
    None
}

/// Whether a left drag repaints a cell: it paints only onto `Empty` cells,
/// except that the `Empty` paint rubs out any cell.
pub open spec fn paint_swaps(old_t: Tile, new_t: Tile) -> bool {
    (old_t == Tile::Empty && new_t != Tile::Empty) || (old_t != Tile::Empty && new_t
        == Tile::Empty)
}

impl GuiState {
    /// Follows the pointer: refreshes the highlighted cell, paints under a
    /// held button, or pans the view.
    pub fn on_mouse_motion(&mut self, board: &Board, mx: i32, my: i32) -> (r: PicrossAction)
        requires
            old(self).wf(),
            board.wf(),
            i32::MIN <= mx - old(self).offset_x <= i32::MAX,
            i32::MIN <= my - old(self).offset_y <= i32::MAX,
            old(self).mode == GuiMode::Pan ==> {
                &&& i32::MIN <= old(self).offset_x + mx <= i32::MAX
                &&& i32::MIN <= old(self).offset_x + mx - old(self).last_mouse_x <= i32::MAX
                &&& i32::MIN <= old(self).offset_y + my <= i32::MAX
                &&& i32::MIN <= old(self).offset_y + my - old(self).last_mouse_y <= i32::MAX
            },
            old(self).board matches Some(b) ==> b.wf() && b.width == board.width && b.height
                == board.height,
        ensures
            final(self).wf(),
            r is NoOp,
            ({
                let coord = spec_tile_coord(
                    *board,
                    old(self).board_scale as int,
                    mx - old(self).offset_x,
                    my - old(self).offset_y,
                );
                &&& final(self).highlight == coord
                &&& (old(self).mode == GuiMode::HoldLMB || old(self).mode == GuiMode::HoldRMB)
                    ==> {
                    let paint = if old(self).mode == GuiMode::HoldLMB {
                        old(self).selected_paint
                    } else {
                        Tile::Empty
                    };
                    let b0 = old(self).board->0;
                    let tc = coord->0;
                    let tx = tc.0 as int;
                    let ty = tc.1 as int;
                    if old(self).board is Some && coord is Some && paint_swaps(
                        b0.idx(tx, ty),
                        paint,
                    ) {
                        &&& final(self).board is Some
                        &&& {
                            let b1 = final(self).board->0;
                            &&& b1.wf()
                            &&& b1.width == b0.width && b1.height == b0.height
                            &&& forall|i: int, j: int|
                                0 <= i < b0.width && 0 <= j < b0.height ==> #[trigger] b1.idx(i, j)
                                    == (if i == tx && j == ty {
                                    paint
                                } else {
                                    b0.idx(i, j)
                                })
                        }
                        &&& final(self).new_changes
                        &&& *final(self) == (GuiState {
                            board: final(self).board,
                            new_changes: true,
                            highlight: coord,
                            ..*old(self)
                        })
                    } else {
                        *final(self) == (GuiState { highlight: coord, ..*old(self) })
                    }
                }
                &&& old(self).mode == GuiMode::Pan ==> *final(self) == (GuiState {
                    highlight: coord,
                    offset_x: (old(self).offset_x + mx - old(self).last_mouse_x) as i32,
                    offset_y: (old(self).offset_y + my - old(self).last_mouse_y) as i32,
                    last_mouse_x: mx,
                    last_mouse_y: my,
                    ..*old(self)
                })
                &&& old(self).mode == GuiMode::Neutral ==> *final(self) == (GuiState {
                    highlight: coord,
                    ..*old(self)
                })
            }),
    {
        let maybe_tile_coord = convert_mouse_coord_to_tile_coord(
            board,
            self.board_scale,
            mx - self.offset_x,
            my - self.offset_y,
        );
        self.highlight = maybe_tile_coord;

        if self.mode == GuiMode::HoldLMB || self.mode == GuiMode::HoldRMB {
            let paint = if self.mode == GuiMode::HoldLMB {
                self.selected_paint
            } else {
                Tile::Empty
            };
            let mut changed = false;
            if let Some((tx, ty)) = maybe_tile_coord {
                match &mut self.board {
                    Some(b) => {
                        let ot = b.get(tx, ty);
                        match ot {
                            Some(old_tile) => {
                                if (old_tile == Tile::Empty && paint != Tile::Empty) || (old_tile
                                    != Tile::Empty && paint == Tile::Empty) {
                                    b.set(tx, ty, paint);
                                    changed = true;
                                }
                            },
                            None => {
                                proof {
                                    assert(false);
                                }
                            },
                        }
                    },
                    None => {},
                }
            }
            if changed {
                self.new_changes = true;
            }
        } else if self.mode == GuiMode::Pan {
            self.offset_x = self.offset_x + mx - self.last_mouse_x;
            self.offset_y = self.offset_y + my - self.last_mouse_y;
            self.last_mouse_x = mx;
            self.last_mouse_y = my;
        }
        PicrossAction::NoOp
    }

    /// A pressed left button: a widget click acts at once, while a press
    /// on the board starts painting into a fresh copy of it.
    pub fn on_lmb(&mut self, board: &Board, widget: Option<&Widget>, mx: i32, my: i32) -> (r:
        PicrossAction)
        requires
            old(self).wf(),
            board.wf(),
            i32::MIN <= mx - old(self).offset_x <= i32::MAX,
            i32::MIN <= my - old(self).offset_y <= i32::MAX,
        ensures
            final(self).wf(),
            old(self).mode != GuiMode::Neutral ==> *final(self) == *old(self) && r is NoOp,
            old(self).mode == GuiMode::Neutral && widget is Some ==> ({
                let w = *widget->0;
                &&& (r is Undo <==> w.mode == WidgetType::Undo)
                &&& (r is Redo <==> w.mode == WidgetType::Redo)
                &&& (w.mode matches WidgetType::Paint(p, _, _) ==> r is NoOp && *final(self)
                    == (GuiState { selected_paint: p, ..*old(self) }))
                &&& (w.mode == WidgetType::Label || w.mode == WidgetType::Undo || w.mode
                    == WidgetType::Redo ==> *final(self) == *old(self))
            }),
            old(self).mode == GuiMode::Neutral && widget is None && old(self).board is Some ==> r
                is NoOp && *final(self) == (GuiState { mode: GuiMode::HoldLMB, ..*old(self) }),
            old(self).mode == GuiMode::Neutral && widget is None && old(self).board is None
                ==> ({
                let coord = spec_tile_coord(
                    *board,
                    old(self).board_scale as int,
                    mx - old(self).offset_x,
                    my - old(self).offset_y,
                );
                let paint = old(self).selected_paint;
                &&& r is NoOp
                &&& final(self).mode == GuiMode::HoldLMB
                &&& final(self).highlight == coord
                &&& final(self).board is Some
                &&& {
                    let b1 = final(self).board->0;
                    let tc = coord->0;
                    let tx = tc.0 as int;
                    let ty = tc.1 as int;
                    &&& b1.wf()
                    &&& b1.width == board.width && b1.height == board.height
                    &&& (if coord is Some && paint_swaps(board.idx(tx, ty), paint) {
                        final(self).new_changes && (forall|i: int, j: int|
                            0 <= i < board.width && 0 <= j < board.height ==> #[trigger] b1.idx(
                                i,
                                j,
                            ) == (if i == tx && j == ty {
                                paint
                            } else {
                                board.idx(i, j)
                            }))
                    } else {
                        !final(self).new_changes && (forall|i: int, j: int|
                            0 <= i < board.width && 0 <= j < board.height ==> #[trigger] b1.idx(
                                i,
                                j,
                            ) == board.idx(i, j))
                    })
                }
            }),
    {
        if self.mode != GuiMode::Neutral {
            return PicrossAction::NoOp;
        }
        match widget {
            Some(w) => {
                match w.mode {
                    WidgetType::Label => {},
                    WidgetType::Undo => {
                        return PicrossAction::Undo;
                    },
                    WidgetType::Redo => {
                        return PicrossAction::Redo;
                    },
                    WidgetType::Paint(paint, _, _) => {
                        self.selected_paint = paint;
                    },
                }
            },
            None => {
                self.mode = GuiMode::HoldLMB;
                if self.board.is_none() {
                    self.board = Some(board.duplicate());
                    self.new_changes = false;
                    return self.on_mouse_motion(board, mx, my);
                }
            },
        }
        PicrossAction::NoOp
    }

    /// A pressed right button starts rubbing out from a fresh copy of the
    /// board.
    pub fn on_rmb(&mut self, board: &Board, mx: i32, my: i32) -> (r: PicrossAction)
        requires
            old(self).wf(),
            board.wf(),
            i32::MIN <= mx - old(self).offset_x <= i32::MAX,
            i32::MIN <= my - old(self).offset_y <= i32::MAX,
        ensures
            final(self).wf(),
            r is NoOp,
            old(self).mode != GuiMode::Neutral ==> *final(self) == *old(self),
            old(self).mode == GuiMode::Neutral && old(self).board is Some ==> *final(self)
                == (GuiState { mode: GuiMode::HoldRMB, ..*old(self) }),
            old(self).mode == GuiMode::Neutral && old(self).board is None ==> ({
                let coord = spec_tile_coord(
                    *board,
                    old(self).board_scale as int,
                    mx - old(self).offset_x,
                    my - old(self).offset_y,
                );
                &&& final(self).mode == GuiMode::HoldRMB
                &&& final(self).highlight == coord
                &&& final(self).board is Some
                &&& {
                    let b1 = final(self).board->0;
                    &&& b1.wf()
                    &&& b1.width == board.width && b1.height == board.height
                    &&& (match coord {
                        Some((tx, ty)) => if board.idx(tx as int, ty as int) != Tile::Empty {
                            final(self).new_changes && (forall|i: int, j: int|
                                0 <= i < board.width && 0 <= j < board.height
                                    ==> #[trigger] b1.idx(i, j) == (if i == tx && j == ty {
                                    Tile::Empty
                                } else {
                                    board.idx(i, j)
                                }))
                        } else {
                            !final(self).new_changes && (forall|i: int, j: int|
                                0 <= i < board.width && 0 <= j < board.height
                                    ==> #[trigger] b1.idx(i, j) == board.idx(i, j))
                        },
                        None => !final(self).new_changes && (forall|i: int, j: int|
                            0 <= i < board.width && 0 <= j < board.height ==> #[trigger] b1.idx(
                                i,
                                j,
                            ) == board.idx(i, j)),
                    })
                }
                &&& *final(self) == (GuiState {
                    mode: GuiMode::HoldRMB,
                    board: final(self).board,
                    new_changes: final(self).new_changes,
                    highlight: coord,
                    ..*old(self)
                })
            }),
    {
        if self.mode != GuiMode::Neutral {
            return PicrossAction::NoOp;
        }
        self.mode = GuiMode::HoldRMB;
        if self.board.is_none() {
            self.board = Some(board.duplicate());
            self.new_changes = false;
            self.on_mouse_motion(board, mx, my)
        } else {
            PicrossAction::NoOp
        }
    }
}

pub fn convert_mouse_coord_to_tile_coord(board: &Board, scale: u32, mx: i32, my: i32) -> (r: Option<
    (u32, u32),
>)
    requires
        1 <= scale <= 5,
        board.wf(),
    ensures
        r == spec_tile_coord(*board, scale as int, mx as int, my as int),
{
    if mx >= 0 && my >= 0 {
        proof {
            assert(TILE_WIDTH == 15);
            assert(scale * (TILE_WIDTH + 2) <= 85) by (nonlinear_arith)
                requires
                    1 <= scale <= 5,
                    TILE_WIDTH == 15,
            ;
            assert(1 <= scale * (TILE_WIDTH + 2)) by (nonlinear_arith)
                requires
                    1 <= scale <= 5,
                    TILE_WIDTH == 15,
            ;
            assert(scale * (TILE_HEIGHT + 2) <= 85) by (nonlinear_arith)
                requires
                    1 <= scale <= 5,
                    TILE_HEIGHT == 15,
            ;
            assert(1 <= scale * (TILE_HEIGHT + 2)) by (nonlinear_arith)
                requires
                    1 <= scale <= 5,
                    TILE_HEIGHT == 15,
            ;
        }
        let x_spacing = scale * (TILE_WIDTH + 2);
        let y_spacing = scale * (TILE_HEIGHT + 2);
        let tx = (mx as u32) / x_spacing;
        let ty = (my as u32) / y_spacing;
        if (tx as usize) < board.width && (ty as usize) < board.height {
            return Some((tx, ty));
        }
    }
    None
}

} // verus!
