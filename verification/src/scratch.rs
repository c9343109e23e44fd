//! Model of the on-chip scratch memory: 64 read/write 32-bit word slots.
//!
//! The hardware region is reached with one volatile access per call, done
//! outside this crate; this model verifies the bounds discipline and the
//! word-slot semantics the region offers.

use vstd::prelude::*;

verus! {

/// Number of word slots in the scratch memory region.
pub const SCRATCH_WORDS: usize = 64;

/// Owned model of the scratch memory: one 32-bit word per slot.
pub struct ScratchRam {
    words: Vec<u32>,
}

impl View for ScratchRam {
    type V = Seq<u32>;

    closed spec fn view(&self) -> Seq<u32> {
        self.words@
    }
}

impl ScratchRam {
    /// The scratch memory always holds exactly `SCRATCH_WORDS` slots.
    pub open spec fn wf(&self) -> bool {
        self@.len() == SCRATCH_WORDS
    }

    /// A fresh scratch memory with every slot zeroed.
    pub fn new() -> (s: ScratchRam)
        ensures
            s.wf(),
            forall|i: int| 0 <= i < SCRATCH_WORDS ==> s@[i] == 0u32,
    {
        let mut words: Vec<u32> = Vec::new();
        let mut i: usize = 0;
        while i < SCRATCH_WORDS
            invariant
                i <= SCRATCH_WORDS,
                words@.len() == i,
                forall|j: int| 0 <= j < i ==> words@[j] == 0u32,
            decreases SCRATCH_WORDS - i,
        {
            words.push(0u32);
            i = i + 1;
        }
        ScratchRam { words }
    }

    /// Write `value` into slot `word_index`, leaving every other slot as it was.
    pub fn write(&mut self, word_index: usize, value: u32)
        requires
            old(self).wf(),
            word_index < SCRATCH_WORDS,
        ensures
            final(self).wf(),
            final(self)@ == old(self)@.update(word_index as int, value),
    {
        self.words[word_index] = value;
    }

    /// The word currently held in slot `word_index`.
    pub fn read(&self, word_index: usize) -> (w: u32)
        requires
            self.wf(),
            word_index < SCRATCH_WORDS,
        ensures
            w == self@[word_index as int],
    {
        self.words[word_index]
    }
}

} // verus!
