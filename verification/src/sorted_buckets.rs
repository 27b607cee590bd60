use crate::bucket_idx::BucketIdx;
use vstd::prelude::*;

verus! {

/// The hashes of a part, grouped by bucket, and the order in which the buckets are to be
/// placed.
#[derive(Debug)]
pub struct SortedBuckets {
    /// The hashes of bucket `b` are those from `starts[b]` up to `starts[b + 1]`.
    pub starts: Vec<u32>,
    /// The buckets, largest first.
    pub order: Vec<BucketIdx>,
}

/// What is reported of a bucket once it has its pilot.
#[derive(Clone, Copy, Debug, PartialEq, Eq, Structural)]
pub struct BucketStat {
    /// The bucket's place in the order.
    pub rank: usize,
    /// How many buckets the order has.
    pub buckets: usize,
    /// The number of keys in the bucket.
    pub len: usize,
    /// The bucket's pilot.
    pub pilot: u64,
}

impl SortedBuckets {
    /// The number of buckets.
    pub open spec fn count(&self) -> int {
        self.starts@.len() - 1
    }

    /// The buckets lie one after the other within `n` hashes, and the order names at least
    /// one bucket, and none twice.
    pub open spec fn valid(&self, n: int) -> bool {
        &&& self.starts@.len() >= 1
        &&& forall|i: int, j: int|
            0 <= i <= j < self.starts@.len() ==> self.starts@[i] <= self.starts@[j]
        &&& self.starts@[self.starts@.len() - 1] <= n
        &&& self.order@.len() >= 1
        &&& self.order@.no_duplicates()
        &&& forall|i: int|
            0 <= i < self.order@.len() ==> !(#[trigger] self.order@[i]).absent()
                && self.order@[i].at() < self.count()
    }

    /// The hashes of bucket `b`.
    pub open spec fn bucket<H>(&self, hashes: Seq<H>, b: int) -> Seq<H> {
        hashes.subrange(self.starts@[b] as int, self.starts@[b + 1] as int)
    }

    /// The number of hashes in bucket `b`.
    pub fn bucket_len(&self, b: BucketIdx) -> (len: usize)
        requires
            b.at() < self.count(),
            self.starts@[b.at()] <= self.starts@[b.at() + 1],
        ensures
            len == self.starts@[b.at() + 1] - self.starts@[b.at()],
    {
        let i: usize = b.index();
        assert(i + 1 < self.starts.len());
        (self.starts[i + 1] - self.starts[i]) as usize
    }

    /// The hashes of bucket `b`.
    pub fn bucket_of<'a, H>(&self, hashes: &'a [H], b: BucketIdx) -> (bucket: &'a [H])
        requires
            b.at() < self.count(),
            self.starts@[b.at()] <= self.starts@[b.at() + 1] <= hashes@.len(),
        ensures
            bucket@ == self.bucket(hashes@, b.at()),
    {
        let i: usize = b.index();
        assert(i + 1 < self.starts.len());
        &hashes[self.starts[i] as usize..self.starts[i + 1] as usize]
    }

    /// Tests [`Self::valid`].
    pub fn is_valid(&self, n: usize) -> (r: bool)
        ensures
            r == self.valid(n as int),
    {
        if self.starts.len() == 0 || self.order.len() == 0 {
            return false;
        }
        let last: usize = self.starts.len() - 1;
        let mut i: usize = 0;
        while i < last
            invariant
                last == self.starts@.len() - 1,
                0 <= i <= last,
                forall|k: int, l: int| 0 <= k <= l <= i ==> self.starts@[k] <= self.starts@[l],
            decreases last - i,
        {
            if self.starts[i] > self.starts[i + 1] {
                return false;
            }
            proof {
                assert forall|k: int| 0 <= k <= i + 1 implies #[trigger] self.starts@[k]
                    <= self.starts@[i + 1] by {
                    if k <= i {
                        assert(self.starts@[k] <= self.starts@[i as int]);
                    }
                }
            }
            i += 1;
        }
        if self.starts[last] as usize > n {
            return false;
        }
        let mut seen: Vec<bool> = vec![false; last];
        let mut i: usize = 0;
        while i < self.order.len()
            invariant
                last == self.starts@.len() - 1,
                0 <= i <= self.order@.len(),
                seen@.len() == last,
                forall|k: int|
                    0 <= k < i ==> !(#[trigger] self.order@[k]).absent() && self.order@[k].at()
                        < last && seen@[self.order@[k].at()],
                forall|x: int|
                    0 <= x < last && #[trigger] seen@[x] ==> exists|k: int|
                        0 <= k < i && (#[trigger] self.order@[k]).at() == x,
                forall|k: int, l: int| 0 <= k < l < i ==> self.order@[k] != self.order@[l],
            decreases self.order.len() - i,
        {
            let b: BucketIdx = self.order[i];
            if b.is_none() || b.index() >= last {
                return false;
            }
            if seen[b.index()] {
                proof {
                    let k = choose|k: int| 0 <= k < i && (#[trigger] self.order@[k]).at() == b.at();
                    assert(self.order@[k] == self.order@[i as int]);
                }
                return false;
            }
            seen[b.index()] = true;
            proof {
                assert forall|x: int| 0 <= x < last && #[trigger] seen@[x] implies exists|k: int|
                    0 <= k < i + 1 && (#[trigger] self.order@[k]).at() == x by {
                    if x == b.at() {
                        assert(self.order@[i as int].at() == x);
                    }
                }
            }
            i += 1;
        }
        true
    }

    /// Reports on every bucket of the order.
    pub fn stats(&self, n: usize, pilots: &[u8]) -> (stats: Vec<BucketStat>)
        requires
            self.valid(n as int),
            pilots@.len() >= self.count(),
        ensures
            stats@.len() == self.order@.len(),
            forall|i: int|
                0 <= i < stats@.len() ==> #[trigger] stats@[i] == (BucketStat {
                    rank: i as usize,
                    buckets: self.order@.len() as usize,
                    len: (self.starts@[self.order@[i].at() + 1]
                        - self.starts@[self.order@[i].at()]) as usize,
                    pilot: pilots@[self.order@[i].at()] as u64,
                }),
    {
        let mut stats: Vec<BucketStat> = Vec::new();
        let buckets: usize = self.order.len();
        let mut i: usize = 0;
        while i < buckets
            invariant
                self.valid(n as int),
                pilots@.len() >= self.count(),
                buckets == self.order@.len(),
                0 <= i <= buckets,
                stats@.len() == i,
                forall|k: int|
                    0 <= k < i ==> #[trigger] stats@[k] == (BucketStat {
                        rank: k as usize,
                        buckets: self.order@.len() as usize,
                        len: (self.starts@[self.order@[k].at() + 1]
                            - self.starts@[self.order@[k].at()]) as usize,
                        pilot: pilots@[self.order@[k].at()] as u64,
                    }),
            decreases buckets - i,
        {
            let b: BucketIdx = self.order[i];
            assert(!self.order@[i as int].absent());
            stats.push(
                BucketStat {
                    rank: i,
                    buckets,
                    len: self.bucket_len(b),
                    pilot: pilots[b.index()] as u64,
                },
            );
            i += 1;
        }
        stats
    }
}

/// Numbers that never fall from one to the next never fall.
proof fn lemma_never_falls(xs: Seq<u32>, i: int, j: int)
    requires
        forall|k: int, l: int|
            0 <= k && l == k + 1 && l < xs.len() ==> #[trigger] xs[k] <= #[trigger] xs[l],
        0 <= i <= j < xs.len(),
    ensures
        xs[i] <= xs[j],
    decreases j,
{
    if i < j {
        lemma_never_falls(xs, i, j - 1);
        assert(xs[j - 1] <= xs[j]);
    }
}

impl SortedBuckets {
    /// When buckets are valid: each starts where the one before it ends or later, the last
    /// ends within the `n` hashes, and the order names one bucket or more, each by a number
    /// for which there is a bucket, and no two by the same.
    pub proof fn lemma_valid(&self, n: int)
        ensures
            self.valid(n) <==> {
                &&& self.starts@.len() >= 1
                &&& forall|i: int, j: int|
                    0 <= i && j == i + 1 && j < self.starts@.len() ==> #[trigger] self.starts@[i]
                        <= #[trigger] self.starts@[j]
                &&& self.starts@[self.starts@.len() - 1] <= n
                &&& self.order@.len() >= 1
                &&& forall|i: int, j: int|
                    0 <= i < j < self.order@.len() ==> (#[trigger] self.order@[i]).0 != (
                    #[trigger] self.order@[j]).0
                &&& forall|i: int|
                    0 <= i < self.order@.len() ==> (#[trigger] self.order@[i]).0 != 0xffff_ffff
                        && self.order@[i].0 + 1 < self.starts@.len()
            },
    {
        if forall|i: int, j: int|
            0 <= i && j == i + 1 && j < self.starts@.len() ==> #[trigger] self.starts@[i]
                <= #[trigger] self.starts@[j] {
            assert forall|i: int, j: int| 0 <= i <= j < self.starts@.len() implies self.starts@[i]
                <= self.starts@[j] by {
                lemma_never_falls(self.starts@, i, j);
            }
        }
        if self.order@.no_duplicates() {
            assert forall|i: int, j: int| 0 <= i < j < self.order@.len() implies (
            #[trigger] self.order@[i]).0 != (#[trigger] self.order@[j]).0 by {
                assert(self.order@[i] != self.order@[j]);
            }
        }
        if forall|i: int, j: int|
            0 <= i < j < self.order@.len() ==> (#[trigger] self.order@[i]).0 != (
            #[trigger] self.order@[j]).0 {
            assert forall|i: int, j: int|
                0 <= i < self.order@.len() && 0 <= j < self.order@.len() && i
                    != j implies self.order@[i] != self.order@[j] by {
                if i < j {
                    assert(self.order@[i].0 != self.order@[j].0);
                } else {
                    assert(self.order@[j].0 != self.order@[i].0);
                }
            }
        }
    }

    /// The hashes of a bucket, one by one.
    pub proof fn lemma_bucket<H>(&self, hashes: Seq<H>, b: int)
        requires
            self.starts@[b] <= self.starts@[b + 1] <= hashes.len(),
        ensures
            self.bucket(hashes, b).len() == self.starts@[b + 1] - self.starts@[b],
            forall|k: int|
                self.starts@[b] <= k < self.starts@[b + 1] ==> self.bucket(
                    hashes,
                    b,
                )[k - self.starts@[b]] == #[trigger] hashes[k],
            self.count() == self.starts@.len() - 1,
    {
    }
}

} // verus!
