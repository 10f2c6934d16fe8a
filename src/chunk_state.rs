//! The chunk state word: a chunk's visible length and its start position
//! epoch, packed into one 64-bit value (length in the low half, epoch in the
//! high half).

use vstd::prelude::*;

verus! {

/// `(length, epoch)` packed into one word.
#[derive(Clone, Copy, PartialEq, Eq, Structural, Debug)]
pub struct LenAndEpoch {
    word: u64,
}

impl LenAndEpoch {
    /// The length half of the word.
    pub closed spec fn spec_len(self) -> u32 {
        (self.word & 0xffff_ffffu64) as u32
    }

    /// The epoch half of the word.
    pub closed spec fn spec_epoch(self) -> u32 {
        (self.word >> 32u64) as u32
    }

    /// Packs `len` and `epoch` into one word.
    pub fn new(len: u32, epoch: u32) -> (r: LenAndEpoch)
        ensures
            r.spec_len() == len,
            r.spec_epoch() == epoch,
    {
        let word: u64 = ((epoch as u64) << 32u64) | (len as u64);
        assert((((epoch as u64) << 32u64) | (len as u64)) & 0xffff_ffffu64 == len as u64)
            by (bit_vector);
        assert(((((epoch as u64) << 32u64) | (len as u64)) >> 32u64) == epoch as u64)
            by (bit_vector);
        LenAndEpoch { word }
    }

    /// The number of initialised slots.
    pub fn len(&self) -> (r: u32)
        ensures
            r == self.spec_len(),
    {
        (self.word & 0xffff_ffffu64) as u32
    }

    /// The start position epoch.
    pub fn epoch(&self) -> (r: u32)
        ensures
            r == self.spec_epoch(),
    {
        (self.word >> 32u64) as u32
    }
}

} // verus!
