use vstd::prelude::*;

verus! {

/// The number of a bucket within its part, or no bucket at all.
#[derive(Clone, Copy, Debug, PartialEq, Eq, Structural)]
pub struct BucketIdx(pub u32);

impl BucketIdx {
    /// Whether this stands for no bucket: the largest `u32` is kept for that.
    pub open spec fn absent(self) -> bool {
        self.0 == u32::MAX
    }

    /// The value that stands for no bucket.
    pub open spec fn nothing() -> BucketIdx {
        BucketIdx(u32::MAX)
    }

    /// The bucket's number.
    pub open spec fn at(self) -> int {
        self.0 as int
    }

    /// The value that stands for no bucket.
    pub fn none() -> (b: BucketIdx)
        ensures
            b == Self::nothing(),
            b.absent(),
    {
        BucketIdx(u32::MAX)
    }

    /// Whether this stands for no bucket.
    pub fn is_none(&self) -> (r: bool)
        ensures
            r == self.absent(),
    {
        self.0 == u32::MAX
    }

    /// Whether this is a bucket.
    pub fn is_some(&self) -> (r: bool)
        ensures
            r == !self.absent(),
    {
        self.0 != u32::MAX
    }

    /// The bucket's number, for indexing.
    pub fn index(&self) -> (i: usize)
        ensures
            i == self.at(),
    {
        self.0 as usize
    }
}

/// One number stands for no bucket, and every other for the bucket of that number.
pub proof fn lemma_numbers(b: BucketIdx)
    ensures
        b.absent() <==> b.0 == 0xffff_ffff,
        BucketIdx::nothing() == BucketIdx(0xffff_ffff),
        b.at() == b.0,
{
}

} // verus!
