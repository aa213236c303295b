//! A packed set of flags, one bit per index, eight to a byte.

use vstd::prelude::*;

verus! {

/// Whether bit `k` of `byte` is set, counting from the least significant bit.
pub open spec fn bit_of(byte: u8, k: u8) -> bool {
    byte & (1u8 << k) != 0
}

proof fn lemma_zero_has_no_bit(k: u8)
    requires
        k < 8,
    ensures
        !bit_of(0u8, k),
{
    assert(0u8 & (1u8 << k) == 0) by (bit_vector)
        requires
            k < 8,
    ;
}

proof fn lemma_bit_after_or(byte: u8, k: u8, j: u8)
    requires
        k < 8,
        j < 8,
    ensures
        bit_of(byte | (1u8 << k), j) == (j == k || bit_of(byte, j)),
{
    assert(((byte | (1u8 << k)) & (1u8 << j) != 0) == (j == k || (byte & (1u8 << j) != 0)))
        by (bit_vector)
        requires
            k < 8,
            j < 8,
    ;
}

proof fn lemma_bit_after_mask(byte: u8, k: u8, j: u8)
    requires
        k < 8,
        j < 8,
    ensures
        bit_of(byte & !(1u8 << k), j) == (j != k && bit_of(byte, j)),
{
    assert(((byte & !(1u8 << k)) & (1u8 << j) != 0) == (j != k && (byte & (1u8 << j) != 0)))
        by (bit_vector)
        requires
            k < 8,
            j < 8,
    ;
}

/// A fixed number of flags packed into bytes. Its view is the sequence of
/// flags, eight for each byte that it holds.
pub struct Bitmap {
    bytes: Vec<u8>,
}

impl View for Bitmap {
    type V = Seq<bool>;

    closed spec fn view(&self) -> Seq<bool> {
        Seq::new(self.bytes@.len() * 8, |i: int| bit_of(self.bytes@[i / 8], (i % 8) as u8))
    }
}

impl Bitmap {
    /// The number of bytes that hold `bits` flags.
    pub open spec fn bytes_for(bits: nat) -> nat {
        (bits + 7) / 8
    }

    /// A bitmap with room for `bits` flags, all of them clear.
    pub fn new(bits: usize) -> (b: Bitmap)
        ensures
            b@.len() == 8 * Self::bytes_for(bits as nat),
            b@.len() >= bits,
            forall|i: int| 0 <= i < b@.len() ==> !b@[i],
    {
        let size: usize = if bits % 8 == 0 {
            bits / 8
        } else {
            bits / 8 + 1
        };
        let b = Bitmap { bytes: vec![0u8; size] };
        proof {
            assert forall|i: int| 0 <= i < b@.len() implies !b@[i] by {
                lemma_zero_has_no_bit((i % 8) as u8);
            }
        }
        b
    }

    /// Reads flag `index`.
    pub fn get(&self, index: usize) -> (flag: bool)
        requires
            index < self@.len(),
        ensures
            flag == self@[index as int],
    {
        let k: u8 = (index % 8) as u8;
        (self.bytes[index / 8] & (1u8 << k)) != 0
    }

    /// Raises flag `index` and leaves the others as they are.
    pub fn set(&mut self, index: usize)
        requires
            index < old(self)@.len(),
        ensures
            final(self)@ == old(self)@.update(index as int, true),
    {
        let k: u8 = (index % 8) as u8;
        let at: usize = index / 8;
        let byte: u8 = self.bytes[at];
        self.bytes[at] = byte | (1u8 << k);
        proof {
            assert forall|i: int| 0 <= i < self@.len() implies self@[i] == old(self)@.update(
                index as int,
                true,
            )[i] by {
                if i / 8 == at as int {
                    lemma_bit_after_or(byte, k, (i % 8) as u8);
                }
            }
            assert(self@ =~= old(self)@.update(index as int, true));
        }
    }

    /// Lowers flag `index` and leaves the others as they are.
    pub fn unset(&mut self, index: usize)
        requires
            index < old(self)@.len(),
        ensures
            final(self)@ == old(self)@.update(index as int, false),
    {
        let k: u8 = (index % 8) as u8;
        let at: usize = index / 8;
        let byte: u8 = self.bytes[at];
        self.bytes[at] = byte & !(1u8 << k);
        proof {
            assert forall|i: int| 0 <= i < self@.len() implies self@[i] == old(self)@.update(
                index as int,
                false,
            )[i] by {
                if i / 8 == at as int {
                    lemma_bit_after_mask(byte, k, (i % 8) as u8);
                }
            }
            assert(self@ =~= old(self)@.update(index as int, false));
        }
    }

    /// Lowers every flag.
    pub fn reset(&mut self)
        ensures
            final(self)@.len() == old(self)@.len(),
            forall|i: int| 0 <= i < final(self)@.len() ==> !final(self)@[i],
    {
        let n: usize = self.bytes.len();
        let mut at: usize = 0;
        while at < n
            invariant
                n == self.bytes@.len(),
                at <= n,
                forall|j: int| 0 <= j < at ==> self.bytes@[j] == 0u8,
            decreases n - at,
        {
            self.bytes[at] = 0u8;
            at += 1;
        }
        proof {
            assert forall|i: int| 0 <= i < self@.len() implies !self@[i] by {
                lemma_zero_has_no_bit((i % 8) as u8);
            }
        }
    }
}

} // verus!
