//! Unsigned 256-bit numbers, as far as node identifiers need them.
use crate::merkle::{leaf_of_u64, u64_leaf};
use vstd::prelude::*;

verus! {

/// An unsigned 256-bit number in four 64-bit limbs, least significant first.
#[derive(Clone, Copy, Debug, PartialEq, Eq, Structural, Hash)]
pub struct Uint256 {
    pub limb0: u64,
    pub limb1: u64,
    pub limb2: u64,
    pub limb3: u64,
}

/// The greatest value of 256 bits.
pub open spec fn max_value() -> nat {
    0xffff_ffff_ffff_ffff_ffff_ffff_ffff_ffff_ffff_ffff_ffff_ffff_ffff_ffff_ffff_ffffnat
}

impl View for Uint256 {
    type V = nat;

    /// The number that the limbs stand for: each limb counts for 2 to the power
    /// 64 times as much as the one before it.
    open spec fn view(&self) -> nat {
        (self.limb0 + 0x1_0000_0000_0000_0000 * self.limb1 + 0x1_0000_0000_0000_0000_0000_0000_0000_0000
            * self.limb2 + 0x1_0000_0000_0000_0000_0000_0000_0000_0000_0000_0000_0000_0000 * self.limb3) as nat
    }
}

impl Uint256 {
    /// The number with the given limbs, least significant first.
    pub fn from_limbs(limbs: [u64; 4]) -> (n: Self)
        ensures
            n == (Uint256 { limb0: limbs[0], limb1: limbs[1], limb2: limbs[2], limb3: limbs[3] }),
    {
        Uint256 { limb0: limbs[0], limb1: limbs[1], limb2: limbs[2], limb3: limbs[3] }
    }

    /// Zero.
    pub fn zero() -> (n: Self)
        ensures
            n@ == 0,
            n == (Uint256 { limb0: 0, limb1: 0, limb2: 0, limb3: 0 }),
    {
        Uint256 { limb0: 0, limb1: 0, limb2: 0, limb3: 0 }
    }

    /// Whether every bit is set.
    pub open spec fn spec_is_max(&self) -> bool {
        self.limb0 == u64::MAX && self.limb1 == u64::MAX && self.limb2 == u64::MAX && self.limb3
            == u64::MAX
    }

    /// Whether the number is the greatest of 256 bits.
    pub fn is_max(&self) -> (max: bool)
        ensures
            max == self.spec_is_max(),
            max == (self@ == max_value()),
            self@ <= max_value(),
    {
        self.limb0 == u64::MAX && self.limb1 == u64::MAX && self.limb2 == u64::MAX && self.limb3
            == u64::MAX
    }

    /// The next number: one is added to the lowest limb that is not full, and
    /// the full limbs below it start again at zero.
    pub open spec fn spec_add_one(&self) -> Uint256 {
        if self.limb0 < u64::MAX {
            Uint256 { limb0: (self.limb0 + 1) as u64, ..*self }
        } else if self.limb1 < u64::MAX {
            Uint256 { limb0: 0, limb1: (self.limb1 + 1) as u64, ..*self }
        } else if self.limb2 < u64::MAX {
            Uint256 { limb0: 0, limb1: 0, limb2: (self.limb2 + 1) as u64, ..*self }
        } else {
            Uint256 { limb0: 0, limb1: 0, limb2: 0, limb3: (self.limb3 + 1) as u64 }
        }
    }

    /// The number plus one. The greatest number has no next.
    pub fn add_one(&self) -> (next: Self)
        requires
            !self.spec_is_max(),
        ensures
            next == self.spec_add_one(),
            next@ == self@ + 1,
    {
        if self.limb0 < u64::MAX {
            Uint256 { limb0: self.limb0 + 1, limb1: self.limb1, limb2: self.limb2, limb3: self.limb3 }
        } else if self.limb1 < u64::MAX {
            Uint256 { limb0: 0, limb1: self.limb1 + 1, limb2: self.limb2, limb3: self.limb3 }
        } else if self.limb2 < u64::MAX {
            Uint256 { limb0: 0, limb1: 0, limb2: self.limb2 + 1, limb3: self.limb3 }
        } else {
            Uint256 { limb0: 0, limb1: 0, limb2: 0, limb3: self.limb3 + 1 }
        }
    }

    /// The limb that holds byte `k` of the number.
    pub open spec fn limb_of_byte(&self, k: int) -> u64 {
        if k < 8 {
            self.limb0
        } else if k < 16 {
            self.limb1
        } else if k < 24 {
            self.limb2
        } else {
            self.limb3
        }
    }

    /// The 32 bytes of the number, least significant first: those of each limb
    /// in turn.
    pub open spec fn spec_to_little_endian(&self) -> Seq<u8> {
        Seq::new(32, |k: int| leaf_of_u64(self.limb_of_byte(k))[k % 8])
    }

    /// The 32 bytes of the number, least significant first.
    pub fn to_little_endian(&self) -> (bytes: [u8; 32])
        ensures
            bytes@ == self.spec_to_little_endian(),
    {
        let mut bytes: [u8; 32] = [0u8; 32];
        let limbs: [u64; 4] = [self.limb0, self.limb1, self.limb2, self.limb3];
        let mut i: usize = 0;
        while i < 4
            invariant
                i <= 4,
                limbs[0] == self.limb0,
                limbs[1] == self.limb1,
                limbs[2] == self.limb2,
                limbs[3] == self.limb3,
                forall|k: int| 0 <= k < 8 * i ==> bytes@[k] == self.spec_to_little_endian()[k],
            decreases 4 - i,
        {
            let leaf = u64_leaf(limbs[i]);
            let mut j: usize = 0;
            while j < 8
                invariant
                    j <= 8,
                    i < 4,
                    leaf@ == leaf_of_u64(limbs[i as int]),
                    limbs[i as int] == self.limb_of_byte(8 * i as int),
                    forall|k: int| 0 <= k < 8 * i + j ==> bytes@[k] == self.spec_to_little_endian()[k],
                decreases 8 - j,
            {
                bytes[8 * i + j] = leaf[j];
                assert(self.limb_of_byte(8 * i + j) == self.limb_of_byte(8 * i as int));
                j += 1;
            }
            i += 1;
        }
        assert(bytes@ =~= self.spec_to_little_endian());
        bytes
    }
}

} // verus!
