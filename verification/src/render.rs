//! Deterministic mapping from game state to framebuffer contents.
//!
//! A render clears the frame to the background colour and draws one solid
//! square per grid cell: the board is centred in the display, each cell's
//! square sits at the board origin plus the cell's row and column times the
//! tile stride, is two pixels smaller than the stride, and takes its colour
//! from a fixed exponent-to-colour table that saturates beyond its last
//! entry.

use vstd::prelude::*;

use crate::display::{spec_pixel_index, Display, DISP_HEIGHT, DISP_WIDTH};
use crate::game::Game;
use crate::line::GRID;

verus! {

/// Stride of one tile in pixels (square).
pub const TILE_SIZE: usize = 50;
/// Drawn side of a tile: the stride less a two-pixel margin.
pub const DRAWN_SIZE: usize = TILE_SIZE - 2;
/// Leftmost pixel column of the board, centring it in the display.
pub const BOARD_LEFT: usize = (DISP_WIDTH - GRID * TILE_SIZE) / 2;
/// Topmost pixel row of the board, centring it in the display.
pub const BOARD_TOP: usize = (DISP_HEIGHT - GRID * TILE_SIZE) / 2;
/// Background colour the frame is cleared to.
pub const BG_COLOR: u32 = 0x000;

/// Colour drawn for a cell of exponent `exp`: a fixed table, saturating to
/// one colour for every exponent beyond its range.
pub open spec fn spec_color_for(exp: u8) -> u32 {
    if exp == 0 {
        0x111
    } else if exp == 1 {
        0xEEE
    } else if exp == 2 {
        0xDD0
    } else if exp == 3 {
        0xFF8
    } else if exp == 4 {
        0xFB0
    } else if exp == 5 {
        0xF90
    } else if exp == 6 {
        0xF70
    } else if exp == 7 {
        0xF50
    } else if exp == 8 {
        0xF30
    } else {
        0xF00
    }
}

/// Whether pixel (`x`, `y`) lies inside the drawn square of some tile.
pub open spec fn in_tile(x: int, y: int) -> bool {
    BOARD_LEFT <= x < BOARD_LEFT + GRID * TILE_SIZE && BOARD_TOP <= y < BOARD_TOP + GRID
        * TILE_SIZE && (x - BOARD_LEFT) % (TILE_SIZE as int) < DRAWN_SIZE && (y - BOARD_TOP) % (
    TILE_SIZE as int) < DRAWN_SIZE
}

/// Grid row of the tile containing pixel row `y`.
pub open spec fn tile_row(y: int) -> int {
    (y - BOARD_TOP) / (TILE_SIZE as int)
}

/// Grid column of the tile containing pixel column `x`.
pub open spec fn tile_col(x: int) -> int {
    (x - BOARD_LEFT) / (TILE_SIZE as int)
}

/// What a full render leaves at pixel (`x`, `y`): its tile's colour inside a
/// drawn square, the background everywhere else.
pub open spec fn render_pixel(g: Seq<u8>, x: int, y: int) -> u32 {
    if in_tile(x, y) {
        spec_color_for(g[4 * tile_row(y) + tile_col(x)])
    } else {
        BG_COLOR
    }
}

impl Game {
    /// Colour drawn for a cell of exponent `exp`.
    pub fn color_for(exp: u8) -> (color: u32)
        ensures
            color == spec_color_for(exp),
    {
        match exp {
            0 => 0x111,
            1 => 0xEEE,
            2 => 0xDD0,
            3 => 0xFF8,
            4 => 0xFB0,
            5 => 0xF90,
            6 => 0xF70,
            7 => 0xF50,
            8 => 0xF30,
            _ => 0xF00,
        }
    }

    /// Paint the axis-aligned square of side `size` with corner (`x0`, `y0`)
    /// in `color`, leaving every other pixel as it was.
    pub fn draw_rect(d: &mut Display, x0: usize, y0: usize, size: usize, color: u32)
        requires
            old(d).wf(),
            x0 + size <= DISP_WIDTH,
            y0 + size <= DISP_HEIGHT,
        ensures
            final(d).wf(),
            forall|x: int, y: int|
                0 <= x < DISP_WIDTH && 0 <= y < DISP_HEIGHT ==> final(d)@[#[trigger] spec_pixel_index(
                    x,
                    y,
                )] == (if x0 <= x < x0 + size && y0 <= y < y0 + size {
                    color
                } else {
                    old(d)@[spec_pixel_index(x, y)]
                }),
    {
        let ghost orig = d@;
        let mut y = y0;
        while y < y0 + size
            invariant
                d.wf(),
                orig.len() == d@.len(),
                x0 + size <= DISP_WIDTH,
                y0 + size <= DISP_HEIGHT,
                y0 <= y <= y0 + size,
                forall|a: int, b: int|
                    0 <= a < DISP_WIDTH && 0 <= b < DISP_HEIGHT ==> d@[#[trigger] spec_pixel_index(
                        a,
                        b,
                    )] == (if x0 <= a < x0 + size && y0 <= b < y {
                        color
                    } else {
                        orig[spec_pixel_index(a, b)]
                    }),
            decreases y0 + size - y,
        {
            let mut x = x0;
            while x < x0 + size
                invariant
                    d.wf(),
                    orig.len() == d@.len(),
                    x0 + size <= DISP_WIDTH,
                    y0 + size <= DISP_HEIGHT,
                    y0 <= y < y0 + size,
                    x0 <= x <= x0 + size,
                    forall|a: int, b: int|
                        0 <= a < DISP_WIDTH && 0 <= b < DISP_HEIGHT ==> d@[
                        #[trigger] spec_pixel_index(a, b)] == (if (x0 <= a < x0 + size && y0 <= b
                            < y) || (b == y && x0 <= a < x) {
                            color
                        } else {
                            orig[spec_pixel_index(a, b)]
                        }),
                decreases x0 + size - x,
            {
                let ghost before = d@;
                d.set_pixel(x, y, color);
                proof {
                    assert forall|a: int, b: int|
                        0 <= a < DISP_WIDTH && 0 <= b < DISP_HEIGHT && !(a == x && b
                            == y) implies d@[#[trigger] spec_pixel_index(a, b)] == before[spec_pixel_index(
                        a,
                        b,
                    )] by {
                        if spec_pixel_index(a, b) == spec_pixel_index(x as int, y as int) {
                            Display::lemma_pixel_index_injective(a, b, x as int, y as int);
                        }
                    }
                }
                x = x + 1;
            }
            y = y + 1;
        }
    }

    /// Draw the whole board: clear the frame to the background colour, then
    /// paint each cell's square with the colour of its exponent.
    pub fn render(&self, d: &mut Display)
        requires
            self.wf(),
            old(d).wf(),
        ensures
            final(d).wf(),
            forall|x: int, y: int|
                0 <= x < DISP_WIDTH && 0 <= y < DISP_HEIGHT ==> final(d)@[#[trigger] spec_pixel_index(
                    x,
                    y,
                )] == render_pixel(self@.grid, x, y),
    {
        d.fill(BG_COLOR);
        let mut r: usize = 0;
        while r < GRID
            invariant
                self.wf(),
                d.wf(),
                r <= GRID,
                forall|x: int, y: int|
                    0 <= x < DISP_WIDTH && 0 <= y < DISP_HEIGHT ==> d@[#[trigger] spec_pixel_index(
                        x,
                        y,
                    )] == (if in_tile(x, y) && tile_row(y) < r {
                        spec_color_for(self@.grid[4 * tile_row(y) + tile_col(x)])
                    } else {
                        BG_COLOR
                    }),
            decreases GRID - r,
        {
            let mut c: usize = 0;
            while c < GRID
                invariant
                    self.wf(),
                    d.wf(),
                    r < GRID,
                    c <= GRID,
                    forall|x: int, y: int|
                        0 <= x < DISP_WIDTH && 0 <= y < DISP_HEIGHT ==> d@[
                        #[trigger] spec_pixel_index(x, y)] == (if in_tile(x, y) && (tile_row(y) < r
                            || (tile_row(y) == r && tile_col(x) < c)) {
                            spec_color_for(self@.grid[4 * tile_row(y) + tile_col(x)])
                        } else {
                            BG_COLOR
                        }),
                decreases GRID - c,
            {
                let ghost before = d@;
                let exp = self.cell(r, c);
                let color = Self::color_for(exp);
                let px = BOARD_LEFT + c * TILE_SIZE;
                let py = BOARD_TOP + r * TILE_SIZE;
                Self::draw_rect(d, px, py, DRAWN_SIZE, color);
                proof {
                    assert forall|x: int, y: int|
                        0 <= x < DISP_WIDTH && 0 <= y < DISP_HEIGHT implies d@[
                    #[trigger] spec_pixel_index(x, y)] == (if in_tile(x, y) && (tile_row(y) < r || (
                    tile_row(y) == r && tile_col(x) < c + 1)) {
                        spec_color_for(self@.grid[4 * tile_row(y) + tile_col(x)])
                    } else {
                        BG_COLOR
                    }) by {
                        if px <= x < px + DRAWN_SIZE && py <= y < py + DRAWN_SIZE {
                            assert(tile_col(x) == c && tile_row(y) == r && in_tile(x, y));
                        } else {
                            assert(!(in_tile(x, y) && tile_row(y) == r && tile_col(x) == c));
                        }
                    }
                }
                c = c + 1;
            }
            r = r + 1;
        }
        proof {
            assert forall|x: int, y: int|
                0 <= x < DISP_WIDTH && 0 <= y < DISP_HEIGHT && in_tile(x, y) implies tile_row(y)
                < GRID by {}
        }
    }
}

} // verus!
