use vstd::prelude::*;
use vstd::arithmetic::power2::{lemma_pow2_strictly_increases, lemma_pow2_unfold, pow2};

verus! {

/// Stable handle of a tile: its index in the arena of the board.
#[derive(Clone, Copy, PartialEq, Eq, Structural, Debug)]
pub struct TileId(pub usize);

/// A tile, held by its rank. The number shown on a tile of rank `r` is `2^r`.
#[derive(Clone, Copy, PartialEq, Eq, Structural, Debug)]
pub struct Tile(pub u8);

impl Tile {
    /// The number shown on the tile.
    pub open spec fn value(self) -> nat {
        pow2(self.0 as nat)
    }

    /// Doubles the number on the tile: the rank goes up by one.
    pub fn double(&mut self)
        requires
            old(self).0 < u8::MAX,
        ensures
            final(self).0 == old(self).0 + 1,
            final(self).value() == 2 * old(self).value(),
    {
        proof {
            lemma_pow2_unfold((self.0 + 1) as nat);
        }
        self.0 += 1;
    }

    /// The number shown on the tile, where it fits the machine word.
    pub fn checked_num(self) -> (r: Option<usize>)
        ensures
            r.is_some() <==> self.value() <= usize::MAX,
            r matches Some(n) ==> n == self.value(),
    {
        let mut n: usize = 1;
        let mut i: u8 = 0;
        proof {
            vstd::arithmetic::power2::lemma2_to64();
        }
        while i < self.0
            invariant
                i <= self.0,
                n == pow2(i as nat),
            decreases self.0 - i,
        {
            proof {
                lemma_pow2_unfold((i + 1) as nat);
            }
            match n.checked_mul(2) {
                Some(m) => {
                    n = m;
                },
                None => {
                    proof {
                        if i + 1 < self.0 {
                            lemma_pow2_strictly_increases((i + 1) as nat, self.0 as nat);
                        }
                    }
                    return None;
                },
            }
            i += 1;
        }
        Some(n)
    }

    /// The number shown on the tile.
    pub fn num(self) -> (n: usize)
        requires
            self.value() <= usize::MAX,
        ensures
            n == self.value(),
    {
        self.checked_num().unwrap()
    }
}

} // verus!
