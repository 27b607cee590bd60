//! What the search on a shard does with the keys of the shard.
//!
//! Key `k` of a shard has hash `hashes[k]`, and is in part `i` if `k` lies from
//! `part_starts[i]` up to `part_starts[i + 1]`. The pilot of bucket `e` of that part is
//! `pilots[i * b + e]`, and the slots of that part are those of `taken[i]`.

use crate::displace::PtrHash;
use crate::hasher::PilotHasher;
use crate::shard;
use crate::sorted_buckets::SortedBuckets;
use crate::taken::Taken;
use vstd::prelude::*;

verus! {

/// The sum of a list is that of its two halves, wherever it is cut.
pub proof fn lemma_sum_parts(xs: Seq<int>, ys: Seq<int>)
    ensures
        shard::sum(xs + ys) == shard::sum(xs) + shard::sum(ys),
    decreases ys.len(),
{
    if ys.len() == 0 {
        assert(xs + ys =~= xs);
    } else {
        assert((xs + ys).drop_last() =~= xs + ys.drop_last());
        lemma_sum_parts(xs, ys.drop_last());
    }
}

/// The sum of one number is that number, and the sum of none is zero.
pub proof fn lemma_sum_one(x: int)
    ensures
        shard::sum(seq![x]) == x,
        shard::sum(Seq::empty()) == 0,
{
    assert(seq![x].drop_last() =~= Seq::empty());
    assert(shard::sum(seq![x].drop_last()) == 0);
}

/// The sum of the pilots is that of its two halves, wherever it is cut, and one pilot counts
/// for itself.
pub proof fn lemma_pilot_sum(ps: Seq<u8>, qs: Seq<u8>, p: u8)
    ensures
        shard::pilot_sum(ps + qs) == shard::pilot_sum(ps) + shard::pilot_sum(qs),
        shard::pilot_sum(seq![p]) == p,
        shard::pilot_sum(Seq::empty()) == 0,
{
    let xs = ps.map_values(|p: u8| p as int);
    let ys = qs.map_values(|p: u8| p as int);
    assert((ps + qs).map_values(|p: u8| p as int) =~= xs + ys);
    lemma_sum_parts(xs, ys);
    assert(seq![p].map_values(|p: u8| p as int) =~= seq![p as int]);
    lemma_sum_one(p as int);
    assert(Seq::<u8>::empty().map_values(|p: u8| p as int) =~= Seq::empty());
}

/// The pilots of part `i`, one by one.
pub proof fn lemma_chunk(pilots: Seq<u8>, b: int, i: int)
    requires
        0 <= i * b,
        0 <= b,
        i * b + b <= pilots.len(),
    ensures
        shard::chunk(pilots, b, i).len() == b,
        forall|e: int| 0 <= e < b ==> #[trigger] shard::chunk(pilots, b, i)[e] == pilots[i * b + e],
{
}

impl<Hx: PilotHasher> PtrHash<Hx> {
    /// There is room for `n` parts if and only if there are `b` pilots and one bitmap for each.
    pub proof fn lemma_room(&self, pilots: Seq<u8>, taken: Seq<Taken>, n: int)
        requires
            self.b > 0,
        ensures
            n <= self.chunk_count(pilots, taken) <==> n * self.b <= pilots.len() && n
                <= taken.len(),
            0 <= self.chunk_count(pilots, taken),
    {
        let b = self.b as int;
        let len = pilots.len() as int;
        vstd::arithmetic::div_mod::lemma_fundamental_div_mod(len, b);
        vstd::arithmetic::div_mod::lemma_div_pos_is_pos(len, b);
        assert(n <= len / b <==> n * b <= len) by (nonlinear_arith)
            requires
                len == b * (len / b) + len % b,
                0 <= len % b < b,
                0 < b,
        ;
    }

    /// The hashes of part `i`, one by one.
    pub proof fn lemma_part_hashes(&self, hashes: Seq<Hx::H>, part_starts: Seq<u32>, i: int)
        requires
            part_starts[i] <= part_starts[i + 1] <= hashes.len(),
        ensures
            self.part_hashes(hashes, part_starts, i).len() == part_starts[i + 1] - part_starts[i],
            forall|k: int|
                part_starts[i] <= k < part_starts[i + 1] ==> self.part_hashes(
                    hashes,
                    part_starts,
                    i,
                )[k - part_starts[i]] == #[trigger] hashes[k],
    {
    }

    /// When a part of a shard can be searched.
    pub proof fn lemma_part_ok(
        &self,
        hashes: Seq<Hx::H>,
        part_starts: Seq<u32>,
        sorted: SortedBuckets,
        i: int,
    )
        ensures
            self.part_ok(hashes, part_starts, sorted, i) <==> {
                &&& 0 <= i
                &&& i + 1 < part_starts.len()
                &&& part_starts[i] <= part_starts[i + 1]
                &&& part_starts[i + 1] <= hashes.len()
                &&& sorted.valid(part_starts[i + 1] - part_starts[i])
                &&& sorted.starts@.len() == self.b + 1
            },
    {
    }

    /// When a shard can be searched: every part for which there is room can be.
    pub proof fn lemma_shard_ok(
        &self,
        hashes: Seq<Hx::H>,
        part_starts: Seq<u32>,
        sorted: Seq<SortedBuckets>,
        pilots: Seq<u8>,
        taken: Seq<Taken>,
        n: int,
    )
        requires
            self.valid(),
            self.b > 0,
            0 <= n <= sorted.len(),
            n <= taken.len(),
            n * self.b <= pilots.len(),
            (n + 1) * self.b > pilots.len() || n + 1 > taken.len(),
            forall|i: int|
                0 <= i < n ==> self.part_ok(hashes, part_starts, #[trigger] sorted[i], i),
            forall|i: int| 0 <= i < n ==> (#[trigger] taken[i])@.len() >= self.s,
        ensures
            self.shard_ok(hashes, part_starts, sorted, pilots, taken),
            self.chunk_count(pilots, taken) == n,
    {
        self.lemma_room(pilots, taken, n);
        self.lemma_room(pilots, taken, n + 1);
    }

    /// **Each part on its own.** Once the first `n` parts were searched, the pilots and the
    /// bitmap of part `i` are those that the search on the part's hashes leaves, from the
    /// part's pilots and bitmap at first. All that lies behind the first `n` parts is as it
    /// was.
    pub proof fn lemma_parts(
        &self,
        hashes: Seq<Hx::H>,
        part_starts: Seq<u32>,
        sorted: Seq<SortedBuckets>,
        pilots: Seq<u8>,
        taken: Seq<Taken>,
        n: int,
        new_pilots: Seq<u8>,
        new_taken: Seq<Taken>,
        i: int,
    )
        requires
            self.b > 0,
            0 <= i < n <= taken.len(),
            n * self.b <= pilots.len(),
            self.parts_done(
                hashes,
                part_starts,
                sorted,
                pilots,
                taken,
                n,
                new_pilots,
                new_taken,
            ),
        ensures
            ({
                let b = self.b as int;
                let m = self.displaced(
                    hashes.subrange(part_starts[i] as int, part_starts[i + 1] as int),
                    sorted[i],
                    pilots.subrange(i * b, i * b + b),
                    taken[i]@,
                );
                &&& self.part_outcome(hashes, part_starts, sorted, pilots, taken, i) == m
                &&& forall|e: int| 0 <= e < b ==> new_pilots[i * b + e] == #[trigger] m.pilots[e]
                &&& new_taken[i]@ == m.taken
                &&& new_pilots.len() == pilots.len()
                &&& new_taken.len() == taken.len()
                &&& forall|j: int| n * b <= j < pilots.len() ==> #[trigger] new_pilots[j] == pilots[j]
                &&& forall|j: int| n <= j < taken.len() ==> #[trigger] new_taken[j] == taken[j]
            }),
    {
        let b = self.b as int;
        shard::lemma_chunks(i, n, b);
        lemma_chunk(new_pilots, b, i);
        let m = self.part_outcome(hashes, part_starts, sorted, pilots, taken, i);
        assert(shard::chunk(new_pilots, b, i) == m.pilots);
    }

    /// **No collisions in a shard.** Once the first `n` parts were searched, all with success,
    /// two keys `k` and `l` of part `part`, in buckets of the part's order with ranks `i` and
    /// `j`, have different slots under the pilots of their buckets. The slots are slots of the
    /// part, and they are in use.
    pub proof fn lemma_shard_no_collisions(
        &self,
        hashes: Seq<Hx::H>,
        part_starts: Seq<u32>,
        sorted: Seq<SortedBuckets>,
        pilots: Seq<u8>,
        taken: Seq<Taken>,
        n: int,
        new_pilots: Seq<u8>,
        new_taken: Seq<Taken>,
        part: int,
        i: int,
        k: int,
        j: int,
        l: int,
    )
        requires
            self.shard_ok(hashes, part_starts, sorted, pilots, taken),
            0 <= part < n <= self.chunk_count(pilots, taken),
            self.parts_done(
                hashes,
                part_starts,
                sorted,
                pilots,
                taken,
                n,
                new_pilots,
                new_taken,
            ),
            self.part_outcome(hashes, part_starts, sorted, pilots, taken, part).ok(),
            0 <= i < sorted[part].order@.len(),
            0 <= j < sorted[part].order@.len(),
            sorted[part].starts@[sorted[part].order@[i].0 as int] <= k - part_starts[part]
                < sorted[part].starts@[sorted[part].order@[i].0 + 1],
            sorted[part].starts@[sorted[part].order@[j].0 as int] <= l - part_starts[part]
                < sorted[part].starts@[sorted[part].order@[j].0 + 1],
            k != l,
        ensures
            ({
                let x = self.hasher.slot(
                    hashes[k],
                    self.hasher.pilot_hash(
                        new_pilots[part * self.b + sorted[part].order@[i].0] as u64,
                    ),
                );
                let y = self.hasher.slot(
                    hashes[l],
                    self.hasher.pilot_hash(
                        new_pilots[part * self.b + sorted[part].order@[j].0] as u64,
                    ),
                );
                &&& part_starts[part] <= k < part_starts[part + 1] <= hashes.len()
                &&& x != y
                &&& 0 <= x < self.s
                &&& new_taken[part]@[x]
            }),
    {
        let b = self.b as int;
        let from = part_starts[part] as int;
        let to = part_starts[part + 1] as int;
        let keys = hashes.subrange(from, to);
        let own = sorted[part];
        self.lemma_room(pilots, taken, n);
        assert(self.part_ok(hashes, part_starts, sorted[part], part));
        assert(taken[part]@.len() >= self.s);
        self.lemma_parts(
            hashes,
            part_starts,
            sorted,
            pilots,
            taken,
            n,
            new_pilots,
            new_taken,
            part,
        );
        shard::lemma_chunks(part, n, b);
        let first = pilots.subrange(part * b, part * b + b);
        let m = self.displaced(keys, own, first, taken[part]@);
        assert(!own.order@[i].absent() && !own.order@[j].absent());
        assert(own.starts@[own.order@[i].0 + 1] <= own.starts@[own.starts@.len() - 1]);
        assert(own.starts@[own.order@[j].0 + 1] <= own.starts@[own.starts@.len() - 1]);
        self.lemma_no_collisions(keys, own, first, taken[part]@, i, k - from, j, l - from);
        assert(keys[k - from] == hashes[k]);
        assert(keys[l - from] == hashes[l]);
        assert(new_pilots[part * b + own.order@[i].0] == m.pilots[own.order@[i].0 as int]);
        assert(new_pilots[part * b + own.order@[j].0] == m.pilots[own.order@[j].0 as int]);
    }

    /// [`Self::lemma_shard_no_collisions`] for all parts that were searched, and all keys.
    pub proof fn lemma_shard_apart(
        &self,
        hashes: Seq<Hx::H>,
        part_starts: Seq<u32>,
        sorted: Seq<SortedBuckets>,
        pilots: Seq<u8>,
        taken: Seq<Taken>,
        n: int,
        new_pilots: Seq<u8>,
        new_taken: Seq<Taken>,
    )
        requires
            self.shard_ok(hashes, part_starts, sorted, pilots, taken),
            n <= self.chunk_count(pilots, taken),
            self.parts_done(
                hashes,
                part_starts,
                sorted,
                pilots,
                taken,
                n,
                new_pilots,
                new_taken,
            ),
            forall|part: int|
                0 <= part < n ==> (#[trigger] self.part_outcome(
                    hashes,
                    part_starts,
                    sorted,
                    pilots,
                    taken,
                    part,
                )).ok(),
        ensures
            forall|part: int, i: int, k: int, j: int, l: int|
                #![trigger sorted[part].order@[i], hashes[k], sorted[part].order@[j], hashes[l]]
                {
                    let starts = sorted[part].starts@;
                    let b = sorted[part].order@[i].0;
                    let c = sorted[part].order@[j].0;
                    &&& 0 <= part < n
                    &&& 0 <= i < sorted[part].order@.len()
                    &&& 0 <= j < sorted[part].order@.len()
                    &&& starts[b as int] <= k - part_starts[part] < starts[b + 1]
                    &&& starts[c as int] <= l - part_starts[part] < starts[c + 1]
                    &&& k != l
                } ==> self.hasher.slot(
                    hashes[k],
                    self.hasher.pilot_hash(
                        new_pilots[part * self.b + sorted[part].order@[i].0] as u64,
                    ),
                ) != self.hasher.slot(
                    hashes[l],
                    self.hasher.pilot_hash(
                        new_pilots[part * self.b + sorted[part].order@[j].0] as u64,
                    ),
                ),
    {
        assert forall|part: int, i: int, k: int, j: int, l: int|
            #![trigger sorted[part].order@[i], hashes[k], sorted[part].order@[j], hashes[l]]
            {
                let starts = sorted[part].starts@;
                let b = sorted[part].order@[i].0;
                let c = sorted[part].order@[j].0;
                &&& 0 <= part < n
                &&& 0 <= i < sorted[part].order@.len()
                &&& 0 <= j < sorted[part].order@.len()
                &&& starts[b as int] <= k - part_starts[part] < starts[b + 1]
                &&& starts[c as int] <= l - part_starts[part] < starts[c + 1]
                &&& k != l
            } implies self.hasher.slot(
            hashes[k],
            self.hasher.pilot_hash(new_pilots[part * self.b + sorted[part].order@[i].0] as u64),
        ) != self.hasher.slot(
            hashes[l],
            self.hasher.pilot_hash(new_pilots[part * self.b + sorted[part].order@[j].0] as u64),
        ) by {
            assert(self.part_outcome(hashes, part_starts, sorted, pilots, taken, part).ok());
            self.lemma_shard_no_collisions(
                hashes,
                part_starts,
                sorted,
                pilots,
                taken,
                n,
                new_pilots,
                new_taken,
                part,
                i,
                k,
                j,
                l,
            );
        }
    }

    /// The evictions of each of the first `n` parts, one by one.
    pub proof fn lemma_part_counts(
        &self,
        hashes: Seq<Hx::H>,
        part_starts: Seq<u32>,
        sorted: Seq<SortedBuckets>,
        pilots: Seq<u8>,
        taken: Seq<Taken>,
        n: int,
    )
        requires
            0 <= n,
        ensures
            ({
                let b = self.b as int;
                let counts = self.part_counts(hashes, part_starts, sorted, pilots, taken, n);
                &&& counts.len() == n
                &&& forall|i: int|
                    0 <= i < n ==> #[trigger] counts[i] == self.displaced(
                        hashes.subrange(part_starts[i] as int, part_starts[i + 1] as int),
                        sorted[i],
                        pilots.subrange(i * b, i * b + b),
                        taken[i]@,
                    ).total
            }),
    {
    }
}

} // verus!
