//! A thin bitboard wrapper: a set of squares as one `u64`.

use vstd::prelude::*;

use crate::bits::bit64;

verus! {

/// One bitboard: bit `i` set means square `i` is occupied.
pub struct Board(pub u64);

impl Board {
    /// Whether square `idx` is set; indices off the board hold no bit.
    pub fn has_bit(&self, idx: u8) -> (r: bool)
        ensures
            r == bit64(self.0, idx as int),
    {
        if idx >= 64 {
            return false;
        }
        proof {
            let x = self.0;
            let i = idx as u64;
            assert(((x & (1u64 << i)) != 0) == ((x >> i) & 1u64 == 1u64)) by (bit_vector)
                requires
                    i < 64u64,
            ;
        }
        (self.0 & (1u64 << (idx as u64))) != 0
    }

    /// Set square `idx`.
    pub fn set_bit(&mut self, idx: usize)
        requires
            idx < 64,
        ensures
            final(self).0 == old(self).0 | (1u64 << (idx as u64)),
            forall|s: int|
                #[trigger] bit64(final(self).0, s) == (bit64(old(self).0, s) || s == idx as int),
    {
        proof {
            crate::bits::lemma_or_bit(self.0, idx as u64);
        }
        self.0 = self.0 | (1u64 << (idx as u64));
    }
}

} // verus!
