//! In-memory model of the write-only RGB-444 framebuffer.
//!
//! The hardware exposes one 32-bit word per pixel, row-major, with the colour
//! packed in the low 12 bits. This module owns a full frame of words and
//! verifies the addressing and update rules; flushing the frame to the
//! memory-mapped framebuffer region (a volatile write per word, in index
//! order) is left to the unverified glue outside this crate.

use vstd::prelude::*;

verus! {

/// Width of the framebuffer in pixels/words.
pub const DISP_WIDTH: usize = 320;
/// Height of the framebuffer in pixels/words.
pub const DISP_HEIGHT: usize = 240;
/// Total number of 32-bit words in the framebuffer.
pub const FB_WORDS: usize = DISP_WIDTH * DISP_HEIGHT;

/// Row-major linear index of the pixel at column `x`, row `y`.
pub open spec fn spec_pixel_index(x: int, y: int) -> int {
    x + y * (DISP_WIDTH as int)
}

/// One frame of the write-only framebuffer: a word per pixel, row-major.
pub struct Display {
    words: Vec<u32>,
}

impl View for Display {
    type V = Seq<u32>;

    closed spec fn view(&self) -> Seq<u32> {
        self.words@
    }
}

impl Display {
    /// A frame always holds exactly one word per pixel.
    pub open spec fn wf(&self) -> bool {
        self@.len() == FB_WORDS
    }

    /// A fresh frame, cleared to all-zero words (black).
    pub fn new() -> (d: Display)
        ensures
            d.wf(),
            forall|i: int| 0 <= i < FB_WORDS ==> d@[i] == 0u32,
    {
        let mut words: Vec<u32> = Vec::new();
        let mut i: usize = 0;
        while i < FB_WORDS
            invariant
                i <= FB_WORDS,
                words@.len() == i,
                forall|j: int| 0 <= j < i ==> words@[j] == 0u32,
            decreases FB_WORDS - i,
        {
            words.push(0u32);
            i = i + 1;
        }
        Display { words }
    }

    /// Write `value` to every word of the frame, overwriting prior content.
    pub fn fill(&mut self, value: u32)
        requires
            old(self).wf(),
        ensures
            final(self).wf(),
            forall|i: int| 0 <= i < FB_WORDS ==> final(self)@[i] == value,
    {
        let n = self.words.len();
        let mut i: usize = 0;
        while i < n
            invariant
                n == FB_WORDS,
                i <= n,
                self.words@.len() == n,
                forall|j: int| 0 <= j < i ==> self.words@[j] == value,
            decreases n - i,
        {
            self.words[i] = value;
            i = i + 1;
        }
    }

    /// Row-major linear index of pixel (`x`, `y`), always within the frame.
    pub fn pixel_index(x: usize, y: usize) -> (idx: usize)
        requires
            x < DISP_WIDTH,
            y < DISP_HEIGHT,
        ensures
            idx == spec_pixel_index(x as int, y as int),
            idx < FB_WORDS,
    {
        x + y * DISP_WIDTH
    }

    /// Write a single pixel (`x`, `y`) with `color` (RGB-444 in the low bits).
    pub fn set_pixel(&mut self, x: usize, y: usize, color: u32)
        requires
            old(self).wf(),
            x < DISP_WIDTH,
            y < DISP_HEIGHT,
        ensures
            final(self).wf(),
            final(self)@ == old(self)@.update(spec_pixel_index(x as int, y as int), color),
    {
        let idx = Self::pixel_index(x, y);
        self.words[idx] = color;
    }

    /// The word the model currently holds at linear index `idx`; used when
    /// flushing the frame to the hardware and by tests. The hardware itself
    /// offers no read-back.
    pub fn word(&self, idx: usize) -> (w: u32)
        requires
            self.wf(),
            idx < FB_WORDS,
        ensures
            w == self@[idx as int],
    {
        self.words[idx]
    }

    /// Distinct pixel coordinates always address distinct framebuffer words.
    pub proof fn lemma_pixel_index_injective(x1: int, y1: int, x2: int, y2: int)
        requires
            0 <= x1 < DISP_WIDTH,
            0 <= y1 < DISP_HEIGHT,
            0 <= x2 < DISP_WIDTH,
            0 <= y2 < DISP_HEIGHT,
            spec_pixel_index(x1, y1) == spec_pixel_index(x2, y2),
        ensures
            x1 == x2,
            y1 == y2,
    {
        assert(y1 == y2) by (nonlinear_arith)
            requires
                0 <= x1 < 320,
                0 <= x2 < 320,
                x1 + y1 * 320 == x2 + y2 * 320,
        {
        }
    }
}

} // verus!
