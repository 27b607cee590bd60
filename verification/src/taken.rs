use bitvec::vec::BitVec;
use vstd::prelude::*;

verus! {

/// Which slots of a part are in use, one bit per slot, kept in a `bitvec::vec::BitVec`.
#[verifier::external_body]
pub struct Taken {
    bits: BitVec,
}

/// The bits that a `BitVec` holds, in the order of their indices.
pub uninterp spec fn taken_bits(taken: Taken) -> Seq<bool>;

impl View for Taken {
    type V = Seq<bool>;

    open spec fn view(&self) -> Seq<bool> {
        taken_bits(*self)
    }
}

impl Taken {
    /// All `len` slots free. A bit vector holds at most an eighth of `usize::MAX` bits.
    pub fn new(len: usize) -> (taken: Taken)
        requires
            len <= usize::MAX / 8,
        ensures
            taken@ == Seq::new(len as nat, |i: int| false),
    {
        Self::repeat(false, len)
    }

    /// The number of slots.
    pub fn len(&self) -> (n: usize)
        ensures
            n == self@.len(),
    {
        self.bit_len()
    }

    /// Whether slot `i` is in use.
    pub fn get(&self, i: usize) -> (r: bool)
        requires
            i < self@.len(),
        ensures
            r == self@[i as int],
    {
        self.bit(i)
    }

    /// Marks slot `i` as used or free.
    pub fn set(&mut self, i: usize, used: bool)
        requires
            i < old(self)@.len(),
        ensures
            final(self)@ == old(self)@.update(i as int, used),
    {
        self.set_bit(i, used)
    }

    /// `BitVec::repeat`: a vector of `len` copies of `bit`. It panics above `MAX_BITS`,
    /// which is `usize::MAX` shifted right by three.
    #[verifier::external_body]
    fn repeat(bit: bool, len: usize) -> (taken: Taken)
        requires
            len <= usize::MAX / 8,
        ensures
            taken_bits(taken) == Seq::new(len as nat, |i: int| bit),
    {
        Taken { bits: BitVec::repeat(bit, len) }
    }

    /// `BitSlice::len`: the number of bits.
    #[verifier::external_body]
    fn bit_len(&self) -> (n: usize)
        ensures
            n == taken_bits(*self).len(),
    {
        self.bits.len()
    }

    /// Indexing of a `BitSlice` by `usize`: the bit at `i`. It panics out of bounds.
    #[verifier::external_body]
    fn bit(&self, i: usize) -> (r: bool)
        requires
            i < taken_bits(*self).len(),
        ensures
            r == taken_bits(*self)[i as int],
    {
        self.bits[i]
    }

    /// `BitSlice::set`: writes the bit at `i` and no other. It panics out of bounds.
    #[verifier::external_body]
    fn set_bit(&mut self, i: usize, bit: bool)
        requires
            i < taken_bits(*old(self)).len(),
        ensures
            taken_bits(*final(self)) == taken_bits(*old(self)).update(i as int, bit),
    {
        self.bits.set(i, bit)
    }
}

/// The slots in use are those whose bit is set.
pub proof fn lemma_bits(taken: Taken)
    ensures
        taken@ == taken_bits(taken),
{
}

} // verus!
