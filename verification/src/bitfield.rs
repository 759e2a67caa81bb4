//! Aggregation bits: which members of a committee took part in an aggregate.
use vstd::prelude::*;

verus! {

/// `a` is a non-strict subset of `b`: every bit set in `a` is also set in `b`.
///
/// The two need not have the same length; a position beyond the end of a
/// sequence counts as unset.
pub open spec fn is_subset_of(a: Seq<bool>, b: Seq<bool>) -> bool {
    forall|i: int| 0 <= i < a.len() && #[trigger] a[i] ==> i < b.len() && b[i]
}

/// Whether bit `k` of the byte is set; bit 0 is the least significant.
spec fn byte_bit(byte: u8, k: u8) -> bool {
    (byte >> k) & 1u8 == 1u8
}

/// The bits that the first `len` positions of the bytes hold: bit `i` is bit
/// `i % 8` of byte `i / 8`.
spec fn bits_of_bytes(bytes: Seq<u8>, len: nat) -> Seq<bool> {
    Seq::new(len, |i: int| byte_bit(bytes[i / 8], (i % 8) as u8))
}

/// An ordered collection of bits whose length is fixed when it is made. The
/// bits are packed eight to a byte.
#[derive(Debug)]
pub struct Bitfield {
    bytes: Vec<u8>,
    len: usize,
}

impl View for Bitfield {
    type V = Seq<bool>;

    closed spec fn view(&self) -> Seq<bool> {
        bits_of_bytes(self.bytes@, self.len as nat)
    }
}

impl Clone for Bitfield {
    fn clone(&self) -> (copy: Self)
        ensures
            copy@ == self@,
    {
        proof {
            use_type_invariant(self);
        }
        let mut bytes: Vec<u8> = Vec::with_capacity(self.bytes.len());
        let mut i: usize = 0;
        while i < self.bytes.len()
            invariant
                i <= self.bytes.len(),
                bytes@ == self.bytes@.subrange(0, i as int),
            decreases self.bytes.len() - i,
        {
            bytes.push(self.bytes[i]);
            i += 1;
        }
        assert(bytes@ =~= self.bytes@);
        Bitfield { bytes, len: self.len }
    }
}

impl Bitfield {
    /// There are just enough bytes for the bits, and the bits of the last byte
    /// that are past the end are unset.
    #[verifier::type_invariant]
    spec fn well_formed(&self) -> bool {
        &&& self.len <= self.bytes@.len() * 8 < self.len + 8
        &&& forall|i: int|
            self.len <= i < self.bytes@.len() * 8 ==> !byte_bit(
                #[trigger] self.bytes@[i / 8],
                (i % 8) as u8,
            )
    }

    /// A bitfield of `num_bits` bits, all unset.
    pub fn with_capacity(num_bits: usize) -> (b: Bitfield)
        ensures
            b@ == Seq::new(num_bits as nat, |i: int| false),
    {
        let num_bytes = if num_bits % 8 == 0 {
            num_bits / 8
        } else {
            num_bits / 8 + 1
        };
        let mut bytes: Vec<u8> = Vec::with_capacity(num_bytes);
        let mut i: usize = 0;
        while i < num_bytes
            invariant
                i <= num_bytes,
                bytes@.len() == i,
                forall|j: int| 0 <= j < i ==> bytes@[j] == 0u8,
            decreases num_bytes - i,
        {
            bytes.push(0);
            i += 1;
        }
        proof {
            lemma_zero_byte();
        }
        let b = Bitfield { bytes, len: num_bits };
        assert(b@ =~= Seq::new(num_bits as nat, |i: int| false));
        b
    }

    /// The bitfield that holds exactly the given bits, in order.
    pub fn from_bits(bits: Vec<bool>) -> (b: Bitfield)
        ensures
            b@ == bits@,
    {
        let mut b = Bitfield::with_capacity(bits.len());
        let mut i: usize = 0;
        while i < bits.len()
            invariant
                i <= bits.len(),
                b@.len() == bits@.len(),
                forall|j: int| 0 <= j < i ==> b@[j] == bits@[j],
            decreases bits.len() - i,
        {
            b.set(i, bits[i]);
            i += 1;
        }
        assert(b@ =~= bits@);
        b
    }

    /// The number of bits, set or unset.
    pub fn len(&self) -> (n: usize)
        ensures
            n == self@.len(),
    {
        self.len
    }

    /// The bit at position `i`, or `None` where `i` is past the end.
    pub fn get(&self, i: usize) -> (bit: Option<bool>)
        ensures
            bit == if i < self@.len() { Some(self@[i as int]) } else { None },
    {
        proof {
            use_type_invariant(self);
        }
        if i < self.len {
            let k = (i % 8) as u8;
            Some((self.bytes[i / 8] >> k) & 1u8 == 1u8)
        } else {
            None
        }
    }

    /// Sets the bit at position `i` to `value`. Returns whether `i` was in
    /// range; out of range, nothing changes.
    pub fn set(&mut self, i: usize, value: bool) -> (in_range: bool)
        ensures
            in_range == (i < old(self)@.len()),
            final(self)@ == if in_range { old(self)@.update(i as int, value) } else { old(self)@ },
    {
        proof {
            use_type_invariant(&*self);
        }
        if i < self.len {
            let k = (i % 8) as u8;
            let byte = self.bytes[i / 8];
            let new_byte = if value {
                byte | (1u8 << k)
            } else {
                byte & !(1u8 << k)
            };
            proof {
                lemma_set_bit(byte, k);
                lemma_clear_bit(byte, k);
            }
            let ghost before = self.bytes@;
            // The bytes are taken out, changed and put back, so that `self` is
            // a whole bitfield at every step.
            let mut taken = Bitfield { bytes: Vec::new(), len: 0 };
            std::mem::swap(self, &mut taken);
            let Bitfield { bytes, len } = taken;
            let mut bytes = bytes;
            bytes.set(i / 8, new_byte);
            *self = Bitfield { bytes, len };
            assert(self@ =~= old(self)@.update(i as int, value)) by {
                assert forall|m: int| 0 <= m < self.len implies self@[m] == old(self)@.update(
                    i as int,
                    value,
                )[m] by {
                    if m / 8 == i / 8 {
                        assert(m == i <==> m % 8 == i % 8);
                    } else {
                        assert(self.bytes@[m / 8] == before[m / 8]);
                    }
                }
            }
            true
        } else {
            false
        }
    }

    /// Whether every bit set in `self` is also set in `other`.
    pub fn is_subset(&self, other: &Bitfield) -> (subset: bool)
        ensures
            subset == is_subset_of(self@, other@),
    {
        proof {
            use_type_invariant(self);
            use_type_invariant(other);
        }
        let mut i: usize = 0;
        while i < self.bytes.len()
            invariant
                i <= self.bytes.len(),
                self.well_formed(),
                other.well_formed(),
                forall|j: int|
                    0 <= j < self@.len() && j < i * 8 && #[trigger] self@[j] ==> j < other@.len()
                        && other@[j],
            decreases self.bytes.len() - i,
        {
            let byte = self.bytes[i];
            let other_byte = if i < other.bytes.len() {
                other.bytes[i]
            } else {
                0
            };
            proof {
                lemma_difference(byte, other_byte);
                lemma_zero_byte();
            }
            if byte & !other_byte != 0 {
                let ghost k = choose|k: u8| k < 8 && byte_bit(byte, k) && !byte_bit(other_byte, k);
                let ghost j = i * 8 + k;
                assert(j / 8 == i && j % 8 == k);
                assert(j < self.len) by {
                    if j >= self.len {
                        assert(!byte_bit(self.bytes@[j / 8], (j % 8) as u8));
                    }
                }
                assert(self@[j]);
                assert(!(j < other@.len() && other@[j]));
                return false;
            }
            assert forall|j: int|
                0 <= j < self@.len() && j < (i + 1) * 8 && #[trigger] self@[j] implies j
                < other@.len() && other@[j] by {
                if j >= i * 8 {
                    assert(j / 8 == i);
                    let k = (j % 8) as u8;
                    assert(byte_bit(other_byte, k));
                    assert(i < other.bytes@.len());
                    if j >= other.len {
                        assert(!byte_bit(other.bytes@[j / 8], (j % 8) as u8));
                    }
                }
            }
            i += 1;
        }
        true
    }

    /// The position of the lowest set bit, if any bit is set.
    pub fn first_set_bit(&self) -> (first: Option<usize>)
        ensures
            first == spec_first_set_bit(self@),
    {
        proof {
            use_type_invariant(self);
        }
        let mut i: usize = 0;
        while i < self.len
            invariant
                i <= self.len,
                self.well_formed(),
                forall|j: int| 0 <= j < i ==> !self@[j],
            decreases self.len - i,
        {
            let k = (i % 8) as u8;
            if (self.bytes[i / 8] >> k) & 1u8 == 1u8 {
                proof {
                    lemma_first_set_bit(self@, i as int);
                }
                return Some(i);
            }
            i += 1;
        }
        proof {
            lemma_no_set_bit(self@);
        }
        None
    }
}

/// No bit of the zero byte is set.
proof fn lemma_zero_byte()
    ensures
        forall|k: u8| k < 8 ==> !#[trigger] byte_bit(0u8, k),
{
    assert forall|k: u8| k < 8 implies !#[trigger] byte_bit(0u8, k) by {
        assert((0u8 >> k) & 1u8 != 1u8) by (bit_vector);
    }
}

/// Setting bit `k` of a byte sets that bit and leaves the others.
proof fn lemma_set_bit(byte: u8, k: u8)
    requires
        k < 8,
    ensures
        forall|j: u8| j < 8 ==> #[trigger] byte_bit(byte | (1u8 << k), j) == (j == k || byte_bit(byte, j)),
{
    assert forall|j: u8| j < 8 implies #[trigger] byte_bit(byte | (1u8 << k), j) == (j == k
        || byte_bit(byte, j)) by {
        assert((((byte | (1u8 << k)) >> j) & 1u8 == 1u8) == (j == k || (byte >> j) & 1u8 == 1u8))
            by (bit_vector)
            requires
                j < 8,
                k < 8,
        ;
    }
}

/// Clearing bit `k` of a byte clears that bit and leaves the others.
proof fn lemma_clear_bit(byte: u8, k: u8)
    requires
        k < 8,
    ensures
        forall|j: u8|
            j < 8 ==> #[trigger] byte_bit(byte & !(1u8 << k), j) == (j != k && byte_bit(byte, j)),
{
    assert forall|j: u8| j < 8 implies #[trigger] byte_bit(byte & !(1u8 << k), j) == (j != k
        && byte_bit(byte, j)) by {
        assert((((byte & !(1u8 << k)) >> j) & 1u8 == 1u8) == (j != k && (byte >> j) & 1u8 == 1u8))
            by (bit_vector)
            requires
                j < 8,
                k < 8,
        ;
    }
}

/// The bits of `a` that `b` lacks are none exactly where every bit of `a` is a
/// bit of `b`.
proof fn lemma_difference(a: u8, b: u8)
    ensures
        a & !b != 0 ==> exists|k: u8| k < 8 && byte_bit(a, k) && !byte_bit(b, k),
        a & !b == 0 ==> forall|k: u8| k < 8 && #[trigger] byte_bit(a, k) ==> byte_bit(b, k),
{
    if a & !b != 0 {
        assert(((a >> 0u8) & 1u8 == 1u8 && (b >> 0u8) & 1u8 != 1u8) || ((a >> 1u8) & 1u8 == 1u8 && (b
            >> 1u8) & 1u8 != 1u8) || ((a >> 2u8) & 1u8 == 1u8 && (b >> 2u8) & 1u8 != 1u8) || ((a
            >> 3u8) & 1u8 == 1u8 && (b >> 3u8) & 1u8 != 1u8) || ((a >> 4u8) & 1u8 == 1u8 && (b
            >> 4u8) & 1u8 != 1u8) || ((a >> 5u8) & 1u8 == 1u8 && (b >> 5u8) & 1u8 != 1u8) || ((a
            >> 6u8) & 1u8 == 1u8 && (b >> 6u8) & 1u8 != 1u8) || ((a >> 7u8) & 1u8 == 1u8 && (b
            >> 7u8) & 1u8 != 1u8)) by (bit_vector)
            requires
                a & !b != 0,
        ;
        if byte_bit(a, 0) && !byte_bit(b, 0) {
        } else if byte_bit(a, 1) && !byte_bit(b, 1) {
        } else if byte_bit(a, 2) && !byte_bit(b, 2) {
        } else if byte_bit(a, 3) && !byte_bit(b, 3) {
        } else if byte_bit(a, 4) && !byte_bit(b, 4) {
        } else if byte_bit(a, 5) && !byte_bit(b, 5) {
        } else if byte_bit(a, 6) && !byte_bit(b, 6) {
        } else {
            assert(byte_bit(a, 7) && !byte_bit(b, 7));
        }
    } else {
        assert forall|k: u8| k < 8 && #[trigger] byte_bit(a, k) implies byte_bit(b, k) by {
            assert((a >> k) & 1u8 == 1u8 ==> (b >> k) & 1u8 == 1u8) by (bit_vector)
                requires
                    a & !b == 0,
                    k < 8,
            ;
        }
    }
}

/// The position of the lowest set bit of `bits`, if any bit is set.
pub open spec fn spec_first_set_bit(bits: Seq<bool>) -> Option<usize> {
    if exists|i: int| 0 <= i < bits.len() && bits[i] {
        let i = choose|i: int| 0 <= i < bits.len() && bits[i] && forall|j: int| 0 <= j < i ==> !bits[j];
        Some(i as usize)
    } else {
        None
    }
}

proof fn lemma_first_set_bit(bits: Seq<bool>, i: int)
    requires
        0 <= i < bits.len(),
        bits.len() <= usize::MAX,
        bits[i],
        forall|j: int| 0 <= j < i ==> !bits[j],
    ensures
        spec_first_set_bit(bits) == Some(i as usize),
{
    let k = choose|k: int| 0 <= k < bits.len() && bits[k] && forall|j: int| 0 <= j < k ==> !bits[j];
    assert(k == i) by {
        if k < i {
            assert(!bits[k]);
        } else if i < k {
            assert(!bits[i]);
        }
    }
}

proof fn lemma_no_set_bit(bits: Seq<bool>)
    requires
        forall|j: int| 0 <= j < bits.len() ==> !bits[j],
    ensures
        spec_first_set_bit(bits) is None,
{
}

} // verus!
