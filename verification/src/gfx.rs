//! Drawing metrics and resource names shared with the rendering layer: the
//! sprite identifiers, the sprite sheet's cell sizes, and the pixel widths
//! of the digit strings that label the clues.

use vstd::prelude::*;

verus! {

/// Which colour a clue digit is drawn in.
#[derive(Clone, Copy, PartialEq, Eq, Structural, Debug)]
pub enum Font {
    Unsolved,
    Solved,
    Conflict,
}

/// One sprite of the sheet.
#[derive(Clone, Copy, PartialEq, Eq, Structural, Hash, Debug)]
pub enum Res {
    ToolbarPicross,
    ToolbarUndo,
    ToolbarRedo,
    ToolbarActiveEmpty,
    ToolbarInactiveEmpty,
    ToolbarActiveCrossedOut,
    ToolbarInactiveCrossedOut,
    ToolbarActiveFilled,
    ToolbarInactiveFilled,
    TileEmpty,
    TileFilled,
    TileCrossedOut,
    /// A digit glyph, by its value.
    FontUnsolved(u8),
    FontSolved(u8),
    FontConflict(u8),
}

pub const FONT_WIDTH: u32 = 7;

pub const FONT_HEIGHT: u32 = 7;

pub const TILE_WIDTH: u32 = 15;

pub const TILE_HEIGHT: u32 = 15;

pub const TOOLBAR_BUTTON_HEIGHT: u32 = 9;

pub const TOOLBAR_BUTTON_WIDTH: u32 = 53;

pub const TOOLBAR_PAINT_WIDTH: u32 = 13;

pub const TOOLBAR_UNDO_REDO_WIDTH: u32 = 8;

/// How many decimal digits a number prints as.
pub open spec fn spec_count_digits(n: int) -> int
    decreases n,
{
    if n < 10 {
        1
    } else {
        1 + spec_count_digits(n / 10)
    }
}

/// `10^k`.
pub open spec fn pow10(k: int) -> int
    decreases k,
{
    if k <= 0 {
        1
    } else {
        10 * pow10(k - 1)
    }
}

/// A number below `10^k` prints with at most `k` digits.
proof fn lemma_count_digits_le(n: int, k: int)
    requires
        0 <= n < pow10(k),
        1 <= k,
    ensures
        1 <= spec_count_digits(n) <= k,
    decreases k,
{
    if n >= 10 {
        assert(pow10(k) == 10 * pow10(k - 1));
        assert(n / 10 < pow10(k - 1));
        assert(2 <= k) by {
            if k == 1 {
                assert(pow10(0) == 1);
                assert(pow10(1) == 10);
            }
        }
        lemma_count_digits_le(n / 10, k - 1);
    }
}

/// A number prints with at least one digit.
pub proof fn lemma_count_digits_pos(n: int)
    ensures
        1 <= spec_count_digits(n),
    decreases n,
{
    if n >= 10 {
        lemma_count_digits_pos(n / 10);
    }
}

/// Every `u32` prints with at most ten digits.
pub proof fn lemma_count_digits_u32(n: int)
    requires
        0 <= n <= u32::MAX,
    ensures
        1 <= spec_count_digits(n) <= 10,
{
    assert(pow10(0) == 1);
    assert(pow10(1) == 10);
    assert(pow10(2) == 100);
    assert(pow10(3) == 1000);
    assert(pow10(4) == 10000);
    assert(pow10(5) == 100000);
    assert(pow10(6) == 1000000);
    assert(pow10(7) == 10000000);
    assert(pow10(8) == 100000000);
    assert(pow10(9) == 1000000000);
    assert(pow10(10) == 10000000000);
    lemma_count_digits_le(n, 10);
}

/// The number of decimal digits of `text`.
#[verifier::loop_isolation(false)]
fn count_digits(text: u32) -> (digits: u32)
    ensures
        digits == spec_count_digits(text as int),
        1 <= digits <= 10,
{
    proof {
        lemma_count_digits_u32(text as int);
    }
    let mut digits: u32 = 1;
    let mut n = text;
    while n >= 10
        invariant
            spec_count_digits(text as int) == spec_count_digits(n as int) + digits - 1,
            1 <= digits <= spec_count_digits(text as int),
        decreases n,
    {
        proof {
            lemma_count_digits_pos(n as int / 10);
            assert(spec_count_digits(n as int) == 1 + spec_count_digits(n as int / 10));
        }
        n = n / 10;
        digits = digits + 1;
    }
    digits
}

/// The width in pixels of `text` drawn at `scale`: one glyph per digit,
/// each but the first preceded by one glyph width minus the single pixel
/// of overlap.
pub open spec fn spec_text_pixel_width(text: int, scale: int) -> int {
    scale * (FONT_WIDTH + (FONT_WIDTH - 1) * (spec_count_digits(text) - 1))
}

pub fn text_pixel_width(text: u32, scale: u32) -> (w: u32)
    requires
        spec_text_pixel_width(text as int, scale as int) <= u32::MAX,
    ensures
        w == spec_text_pixel_width(text as int, scale as int),
{
    let digits = count_digits(text);
    let font_spacing = FONT_WIDTH - 1;
    proof {
        lemma_mul_nonneg(
            scale as int,
            (FONT_WIDTH + (FONT_WIDTH - 1) * (digits - 1)) as int,
        );
    }
    scale * (FONT_WIDTH + font_spacing * (digits - 1))
}

/// A product of naturals is itself a natural.
proof fn lemma_mul_nonneg(a: int, b: int) by (nonlinear_arith)
    requires
        0 <= a,
        0 <= b,
    ensures
        0 <= a * b,
{
}

/// Where a sprite sits on the sheet: `(x, y, width, height)` in pixels.
pub open spec fn spec_sprite_rect(res: Res) -> (int, int, int, int) {
    match res {
        Res::ToolbarPicross => (0, 0, TOOLBAR_BUTTON_WIDTH as int, TOOLBAR_BUTTON_HEIGHT as int),
        Res::ToolbarUndo => (54, 0, TOOLBAR_UNDO_REDO_WIDTH as int, TOOLBAR_BUTTON_HEIGHT as int),
        Res::ToolbarRedo => (64, 0, TOOLBAR_UNDO_REDO_WIDTH as int, TOOLBAR_BUTTON_HEIGHT as int),
        Res::ToolbarActiveEmpty => (0, 30, TOOLBAR_PAINT_WIDTH as int, TOOLBAR_BUTTON_HEIGHT as int),
        Res::ToolbarInactiveEmpty => (
            0,
            40,
            TOOLBAR_PAINT_WIDTH as int,
            TOOLBAR_BUTTON_HEIGHT as int,
        ),
        Res::ToolbarActiveCrossedOut => (
            14,
            30,
            TOOLBAR_PAINT_WIDTH as int,
            TOOLBAR_BUTTON_HEIGHT as int,
        ),
        Res::ToolbarInactiveCrossedOut => (
            14,
            40,
            TOOLBAR_PAINT_WIDTH as int,
            TOOLBAR_BUTTON_HEIGHT as int,
        ),
        Res::ToolbarActiveFilled => (
            28,
            30,
            TOOLBAR_PAINT_WIDTH as int,
            TOOLBAR_BUTTON_HEIGHT as int,
        ),
        Res::ToolbarInactiveFilled => (
            28,
            40,
            TOOLBAR_PAINT_WIDTH as int,
            TOOLBAR_BUTTON_HEIGHT as int,
        ),
        Res::TileEmpty => (0, 10, TILE_WIDTH as int, TILE_HEIGHT as int),
        Res::TileCrossedOut => (20, 10, TILE_WIDTH as int, TILE_HEIGHT as int),
        Res::TileFilled => (40, 10, TILE_WIDTH as int, TILE_HEIGHT as int),
        Res::FontSolved(i) => ((FONT_WIDTH + 1) * i, 50, FONT_WIDTH as int, FONT_HEIGHT as int),
        Res::FontUnsolved(i) => ((FONT_WIDTH + 1) * i, 60, FONT_WIDTH as int, FONT_HEIGHT as int),
        Res::FontConflict(i) => ((FONT_WIDTH + 1) * i, 70, FONT_WIDTH as int, FONT_HEIGHT as int),
    }
}

/// The sprite sheet's layout, one rectangle per resource.  The digit
/// glyphs sit one glyph width plus a pixel apart.
pub fn sprite_rect(res: Res) -> (r: (i32, i32, u32, u32))
    ensures
        r.0 == spec_sprite_rect(res).0,
        r.1 == spec_sprite_rect(res).1,
        r.2 == spec_sprite_rect(res).2,
        r.3 == spec_sprite_rect(res).3,
{
    let font_spacing = FONT_WIDTH + 1;
    match res {
        Res::ToolbarPicross => (0, 0, TOOLBAR_BUTTON_WIDTH, TOOLBAR_BUTTON_HEIGHT),
        Res::ToolbarUndo => (54, 0, TOOLBAR_UNDO_REDO_WIDTH, TOOLBAR_BUTTON_HEIGHT),
        Res::ToolbarRedo => (64, 0, TOOLBAR_UNDO_REDO_WIDTH, TOOLBAR_BUTTON_HEIGHT),
        Res::ToolbarActiveEmpty => (0, 30, TOOLBAR_PAINT_WIDTH, TOOLBAR_BUTTON_HEIGHT),
        Res::ToolbarInactiveEmpty => (0, 40, TOOLBAR_PAINT_WIDTH, TOOLBAR_BUTTON_HEIGHT),
        Res::ToolbarActiveCrossedOut => (14, 30, TOOLBAR_PAINT_WIDTH, TOOLBAR_BUTTON_HEIGHT),
        Res::ToolbarInactiveCrossedOut => (14, 40, TOOLBAR_PAINT_WIDTH, TOOLBAR_BUTTON_HEIGHT),
        Res::ToolbarActiveFilled => (28, 30, TOOLBAR_PAINT_WIDTH, TOOLBAR_BUTTON_HEIGHT),
        Res::ToolbarInactiveFilled => (28, 40, TOOLBAR_PAINT_WIDTH, TOOLBAR_BUTTON_HEIGHT),
        Res::TileEmpty => (0, 10, TILE_WIDTH, TILE_HEIGHT),
        Res::TileCrossedOut => (20, 10, TILE_WIDTH, TILE_HEIGHT),
        Res::TileFilled => (40, 10, TILE_WIDTH, TILE_HEIGHT),
        Res::FontSolved(i) => ((font_spacing * (i as u32)) as i32, 50, FONT_WIDTH, FONT_HEIGHT),
        Res::FontUnsolved(i) => ((font_spacing * (i as u32)) as i32, 60, FONT_WIDTH, FONT_HEIGHT),
        Res::FontConflict(i) => ((font_spacing * (i as u32)) as i32, 70, FONT_WIDTH, FONT_HEIGHT),
    }
}

} // verus!
