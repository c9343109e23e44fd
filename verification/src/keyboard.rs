//! Keyboard state abstraction over the read-only key-state register.
//!
//! The hardware register holds one bit per alphabet key: bit 0 is `A`, bit 25
//! is `Z`, higher bits are unused. Reading the register is a volatile load
//! done outside this crate; every query here takes that freshly read 32-bit
//! `sample` as an argument. The one piece of state is the previously latched
//! sample, which edge detection compares against and then overwrites with the
//! whole fresh sample — regardless of which single letter was queried, so a
//! query for one letter can suppress a genuine edge seen by the next query.

use vstd::prelude::*;

verus! {

/// Bit index of key `A` in the key-state register.
pub const KEY_A: u8 = 0;
/// Bit index of key `Z` in the key-state register.
pub const KEY_Z: u8 = 25;

/// Whether bit `bit_index` is set in the register sample `sample`.
pub open spec fn key_down(sample: u32, bit_index: u8) -> bool {
    sample & (1u32 << bit_index) != 0
}

/// Bit index (0 for `A` .. 25 for `Z`) of an ASCII letter of either case;
/// `None` for anything that is not an ASCII letter.
pub open spec fn spec_letter_index(ch: char) -> Option<u8> {
    let c = ch as u32;
    let upper = if 97 <= c && c <= 122 { c - 32 } else { c as int };
    if 65 <= upper && upper <= 90 {
        Some((upper - 65) as u8)
    } else {
        None
    }
}

/// Stateful keyboard handle: remembers the register sample latched by the
/// previous edge-detection query. The view is that latched sample.
pub struct Keyboard {
    prev_state: u32,
}

impl View for Keyboard {
    type V = u32;

    closed spec fn view(&self) -> u32 {
        self.prev_state
    }
}

impl Keyboard {
    /// A fresh handle with no prior key state latched.
    pub fn new() -> (kb: Keyboard)
        ensures
            kb@ == 0u32,
    {
        Keyboard { prev_state: 0 }
    }

    /// Whether any key at all is held in the fresh register `sample`.
    pub fn any_pressed(&self, sample: u32) -> (r: bool)
        ensures
            r == (sample != 0),
    {
        sample != 0
    }

    /// Whether the key at `bit_index` is held in the fresh register `sample`.
    pub fn is_pressed_idx(&self, sample: u32, bit_index: u8) -> (r: bool)
        requires
            bit_index < 32,
        ensures
            r == key_down(sample, bit_index),
    {
        let mask = 1u32 << bit_index;
        sample & mask != 0
    }

    /// Rising-edge detection for the key at `bit_index`: true exactly when the
    /// bit is set in the fresh `sample` but was clear in the latched previous
    /// sample. Latches the whole fresh sample for the next query.
    pub fn just_pressed_idx(&mut self, sample: u32, bit_index: u8) -> (r: bool)
        requires
            bit_index < 32,
        ensures
            final(self)@ == sample,
            r == (key_down(sample, bit_index) && !key_down(old(self)@, bit_index)),
    {
        let mask = 1u32 << bit_index;
        let previously_set = self.prev_state & mask != 0;
        let now_set = sample & mask != 0;
        self.prev_state = sample;
        now_set && !previously_set
    }

    /// Bit index of an ASCII letter of either case; `None` otherwise.
    pub fn letter_index(ch: char) -> (r: Option<u8>)
        ensures
            r == spec_letter_index(ch),
            r is Some ==> r->0 < 26,
    {
        let c = ch as u32;
        let upper = if 97 <= c && c <= 122 { c - 32 } else { c };
        if 65 <= upper && upper <= 90 {
            Some((upper - 65) as u8)
        } else {
            None
        }
    }

    /// Whether the ASCII letter `ch` (either case) is held in `sample`;
    /// false for non-letters.
    pub fn is_pressed(&self, sample: u32, ch: char) -> (r: bool)
        ensures
            r == match spec_letter_index(ch) {
                Some(idx) => key_down(sample, idx),
                None => false,
            },
    {
        if let Some(idx) = Self::letter_index(ch) {
            self.is_pressed_idx(sample, idx)
        } else {
            false
        }
    }

    /// Rising-edge detection for the ASCII letter `ch` (either case). For a
    /// letter, latches the whole fresh `sample` and reports whether that
    /// letter's bit went from clear to set; for a non-letter, reports false
    /// and latches nothing.
    pub fn just_pressed(&mut self, sample: u32, ch: char) -> (r: bool)
        ensures
            match spec_letter_index(ch) {
                Some(idx) => final(self)@ == sample && r == (key_down(sample, idx)
                    && !key_down(old(self)@, idx)),
                None => final(self)@ == old(self)@ && r == false,
            },
    {
        if let Some(idx) = Self::letter_index(ch) {
            self.just_pressed_idx(sample, idx)
        } else {
            false
        }
    }
}

} // verus!
