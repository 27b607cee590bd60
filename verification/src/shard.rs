use crate::displace::PtrHash;
use crate::hasher::PilotHasher;
use crate::laws;
use crate::placement::{Board, Failure};
use crate::sorted_buckets::SortedBuckets;
use crate::taken::Taken;
use vstd::prelude::*;

verus! {

/// What is reported of a shard whose parts all found their pilots.
#[derive(Clone, Copy, Debug, PartialEq, Eq, Structural)]
pub struct ShardTotals {
    /// How often a bucket was evicted, over all parts.
    pub displacements: usize,
    /// The sum of the pilots of all buckets.
    pub pilots: u128,
}

/// The sum of `xs`.
pub open spec fn sum(xs: Seq<int>) -> int
    decreases xs.len(),
{
    if xs.len() == 0 {
        0
    } else {
        sum(xs.drop_last()) + xs.last()
    }
}

/// The sum of all pilots.
pub open spec fn pilot_sum(pilots: Seq<u8>) -> int {
    sum(pilots.map_values(|p: u8| p as int))
}

/// The pilots of the buckets of part `i`, where each part has `b` buckets.
pub open spec fn chunk(pilots: Seq<u8>, b: int, i: int) -> Seq<u8> {
    pilots.subrange(i * b, i * b + b)
}

/// Sums up the pilots of all buckets.
pub fn sum_pilots(pilots: &[u8]) -> (total: u128)
    ensures
        total == pilot_sum(pilots@),
{
    let ghost values = pilots@.map_values(|p: u8| p as int);
    let mut total: u128 = 0;
    let mut i: usize = 0;
    proof {
        assert(values.take(0) =~= Seq::empty());
    }
    while i < pilots.len()
        invariant
            values == pilots@.map_values(|p: u8| p as int),
            0 <= i <= pilots@.len(),
            total == sum(values.take(i as int)),
            total <= i * 255,
        decreases pilots.len() - i,
    {
        proof {
            assert(values.take(i + 1).drop_last() =~= values.take(i as int));
        }
        total = total + pilots[i] as u128;
        i += 1;
    }
    proof {
        assert(values.take(i as int) =~= values);
    }
    total
}

proof fn lemma_wrapping_sum(total: int, so_far: int, n: int, range: int)
    requires
        range > 0,
        total == so_far % range,
        0 <= n < range,
    ensures
        (so_far + n) % range == if total + n >= range {
            total + n - range
        } else {
            total + n
        },
{
    vstd::arithmetic::div_mod::lemma_add_mod_noop(so_far, n, range);
    vstd::arithmetic::div_mod::lemma_small_mod(n as nat, range as nat);
    if total + n >= range {
        vstd::arithmetic::div_mod::lemma_mod_add_multiples_vanish(total + n - range, range);
        vstd::arithmetic::div_mod::lemma_small_mod((total + n - range) as nat, range as nat);
    } else {
        vstd::arithmetic::div_mod::lemma_small_mod((total + n) as nat, range as nat);
    }
}

impl<Hx: PilotHasher> PtrHash<Hx> {
    /// The hashes of part `i` of a shard.
    pub open spec fn part_hashes(
        &self,
        hashes: Seq<Hx::H>,
        part_starts: Seq<u32>,
        i: int,
    ) -> Seq<Hx::H> {
        hashes.subrange(part_starts[i] as int, part_starts[i + 1] as int)
    }

    /// Part `i` of a shard lies within the hashes, and its buckets are in order.
    pub open spec fn part_ok(
        &self,
        hashes: Seq<Hx::H>,
        part_starts: Seq<u32>,
        sorted: SortedBuckets,
        i: int,
    ) -> bool {
        &&& 0 <= i < part_starts.len() - 1
        &&& part_starts[i] <= part_starts[i + 1] <= hashes.len()
        &&& sorted.valid(part_starts[i + 1] - part_starts[i])
        &&& sorted.count() == self.b
    }

    /// The outcome of the search on part `i` of a shard.
    pub open spec fn part_outcome(
        &self,
        hashes: Seq<Hx::H>,
        part_starts: Seq<u32>,
        sorted: Seq<SortedBuckets>,
        pilots: Seq<u8>,
        taken: Seq<Taken>,
        i: int,
    ) -> Board {
        self.displaced(
            self.part_hashes(hashes, part_starts, i),
            sorted[i],
            chunk(pilots, self.b as int, i),
            taken[i]@,
        )
    }

    /// Finds the pilots of part `part_in_shard`: see [`PtrHash::try_displace_part`].
    pub fn displace_shard_part(
        &self,
        part_in_shard: usize,
        hashes: &[Hx::H],
        part_starts: &[u32],
        sorted: &SortedBuckets,
        pilots: &mut [u8],
        taken: &mut Taken,
    ) -> (total: Result<usize, Failure>)
        requires
            self.valid(),
            self.part_ok(hashes@, part_starts@, *sorted, part_in_shard as int),
            old(pilots)@.len() == self.b,
            old(taken)@.len() >= self.s,
        ensures
            final(pilots)@.len() == old(pilots)@.len(),
            final(taken)@.len() == old(taken)@.len(),
            ({
                let part = self.part_hashes(hashes@, part_starts@, part_in_shard as int);
                let t = self.table(part, *sorted);
                let m = self.displaced(part, *sorted, old(pilots)@, old(taken)@);
                &&& final(pilots)@ == m.pilots
                &&& final(taken)@ == m.taken
                &&& match total {
                    Ok(n) => {
                        &&& m.ok()
                        &&& n == m.total
                        &&& laws::is_perfect(t, final(pilots)@, sorted.order@)
                        &&& laws::marks_slots(
                            t,
                            final(pilots)@,
                            sorted.order@,
                            old(taken)@,
                            final(taken)@,
                        )
                    },
                    Err(e) => m.failure == Some(e),
                }
            }),
    {
        assert(part_in_shard + 1 < part_starts.len());
        let from: usize = part_starts[part_in_shard] as usize;
        let to: usize = part_starts[part_in_shard + 1] as usize;
        self.try_displace_part(&hashes[from..to], sorted, pilots, taken)
    }

    /// The first `k` parts have their outcomes, and everything else is as it was.
    pub open spec fn parts_done(
        &self,
        hashes: Seq<Hx::H>,
        part_starts: Seq<u32>,
        sorted: Seq<SortedBuckets>,
        pilots: Seq<u8>,
        taken: Seq<Taken>,
        k: int,
        new_pilots: Seq<u8>,
        new_taken: Seq<Taken>,
    ) -> bool {
        &&& new_pilots.len() == pilots.len()
        &&& new_taken.len() == taken.len()
        &&& forall|i: int|
            0 <= i < k ==> #[trigger] chunk(new_pilots, self.b as int, i) == self.part_outcome(
                hashes,
                part_starts,
                sorted,
                pilots,
                taken,
                i,
            ).pilots
        &&& forall|i: int|
            0 <= i < k ==> (#[trigger] new_taken[i])@ == self.part_outcome(
                hashes,
                part_starts,
                sorted,
                pilots,
                taken,
                i,
            ).taken
        &&& forall|j: int| k * self.b <= j < pilots.len() ==> #[trigger] new_pilots[j] == pilots[j]
        &&& forall|i: int| k <= i < taken.len() ==> #[trigger] new_taken[i] == taken[i]
    }

    /// How often a bucket was evicted in each of the first `k` parts.
    pub open spec fn part_counts(
        &self,
        hashes: Seq<Hx::H>,
        part_starts: Seq<u32>,
        sorted: Seq<SortedBuckets>,
        pilots: Seq<u8>,
        taken: Seq<Taken>,
        k: int,
    ) -> Seq<int> {
        Seq::new(
            k as nat,
            |i: int| self.part_outcome(hashes, part_starts, sorted, pilots, taken, i).total,
        )
    }

    /// How many parts there is room for: each takes `b` pilots and one bitmap.
    pub open spec fn chunk_count(&self, pilots: Seq<u8>, taken: Seq<Taken>) -> int {
        if pilots.len() / (self.b as nat) <= taken.len() {
            pilots.len() as int / self.b as int
        } else {
            taken.len() as int
        }
    }

    /// The parts of a shard lie within the hashes, their buckets are in order, and each of
    /// their bitmaps has room for all slots.
    pub open spec fn shard_ok(
        &self,
        hashes: Seq<Hx::H>,
        part_starts: Seq<u32>,
        sorted: Seq<SortedBuckets>,
        pilots: Seq<u8>,
        taken: Seq<Taken>,
    ) -> bool {
        &&& self.valid()
        &&& self.b > 0
        &&& self.chunk_count(pilots, taken) <= sorted.len()
        &&& forall|i: int|
            0 <= i < self.chunk_count(pilots, taken) ==> self.part_ok(
                hashes,
                part_starts,
                #[trigger] sorted[i],
                i,
            )
        &&& forall|i: int|
            0 <= i < self.chunk_count(pilots, taken) ==> (#[trigger] taken[i])@.len() >= self.s
    }

    /// Part `i` has a perfect hash function.
    pub open spec fn part_perfect(
        &self,
        hashes: Seq<Hx::H>,
        part_starts: Seq<u32>,
        sorted: Seq<SortedBuckets>,
        pilots: Seq<u8>,
        i: int,
    ) -> bool {
        laws::is_perfect(
            self.table(self.part_hashes(hashes, part_starts, i), sorted[i]),
            chunk(pilots, self.b as int, i),
            sorted[i].order@,
        )
    }

    /// Finds the pilots of part `i`, after those of the parts before it.
    fn displace_next(
        &self,
        i: usize,
        hashes: &[Hx::H],
        part_starts: &[u32],
        sorted: &[SortedBuckets],
        pilots: &mut [u8],
        taken: &mut [Taken],
        Ghost(p0): Ghost<Seq<u8>>,
        Ghost(t0): Ghost<Seq<Taken>>,
    ) -> (total: Result<usize, Failure>)
        requires
            self.shard_ok(hashes@, part_starts@, sorted@, p0, t0),
            i < self.chunk_count(p0, t0),
            self.parts_done(
                hashes@,
                part_starts@,
                sorted@,
                p0,
                t0,
                i as int,
                old(pilots)@,
                old(taken)@,
            ),
        ensures
            self.parts_done(
                hashes@,
                part_starts@,
                sorted@,
                p0,
                t0,
                i + 1,
                final(pilots)@,
                final(taken)@,
            ),
            forall|k: int|
                0 <= k < i ==> #[trigger] chunk(final(pilots)@, self.b as int, k) == chunk(
                    old(pilots)@,
                    self.b as int,
                    k,
                ),
            ({
                let m = self.part_outcome(hashes@, part_starts@, sorted@, p0, t0, i as int);
                match total {
                    Ok(n) => m.ok() && n == m.total && self.part_perfect(
                        hashes@,
                        part_starts@,
                        sorted@,
                        final(pilots)@,
                        i as int,
                    ),
                    Err(e) => m.failure == Some(e),
                }
            }),
    {
        let ghost b = self.b as int;
        let ghost k = i as int;
        let ghost before = pilots@;
        proof {
            let n = self.chunk_count(p0, t0);
            lemma_chunks(k, n, b);
            lemma_whole_chunks(p0.len() as int, b, n);
            assert(self.part_ok(hashes@, part_starts@, sorted@[k], k));
            assert(t0[k]@.len() >= self.s);
        }
        assert(i * self.b <= pilots.len());
        let at: usize = i * self.b;
        let (_head, rest) = pilots.split_at_mut(at);
        let (part_pilots, _tail) = rest.split_at_mut(self.b);
        assert(part_pilots@ =~= chunk(p0, b, k));
        let total: Result<usize, Failure> = self.displace_shard_part(
            i,
            hashes,
            part_starts,
            &sorted[i],
            part_pilots,
            &mut taken[i],
        );
        proof {
            let m = self.part_outcome(hashes@, part_starts@, sorted@, p0, t0, k);
            assert(chunk(pilots@, b, k) =~= m.pilots);
            assert forall|j: int| 0 <= j < k implies #[trigger] chunk(pilots@, b, j) == chunk(
                before,
                b,
                j,
            ) by {
                lemma_chunks(j, k, b);
                assert(chunk(pilots@, b, j) =~= chunk(before, b, j));
            }
            assert((k + 1) * b == k * b + b) by (nonlinear_arith);
        }
        total
    }

    proof fn lemma_next_count(
        &self,
        hashes: Seq<Hx::H>,
        part_starts: Seq<u32>,
        sorted: Seq<SortedBuckets>,
        pilots: Seq<u8>,
        taken: Seq<Taken>,
        k: int,
        n: usize,
        displacements: usize,
    )
        requires
            0 <= k,
            displacements == sum(self.part_counts(hashes, part_starts, sorted, pilots, taken, k))
                % (usize::MAX + 1),
            n == self.part_outcome(hashes, part_starts, sorted, pilots, taken, k).total,
        ensures
            displacements.wrapping_add(n) == sum(
                self.part_counts(hashes, part_starts, sorted, pilots, taken, k + 1),
            ) % (usize::MAX + 1),
    {
        let now = self.part_counts(hashes, part_starts, sorted, pilots, taken, k);
        let next = self.part_counts(hashes, part_starts, sorted, pilots, taken, k + 1);
        assert(next.drop_last() =~= now);
        lemma_wrapping_sum(displacements as int, sum(now), n as int, usize::MAX + 1);
    }

    /// Finds the pilots of all parts of a shard, one part after the other, up to the first
    /// part in which a bucket was given up. `pilots` holds the pilots of each part's
    /// buckets in turn, and `taken` the slots of each part. If all parts succeed, their
    /// number must be that of the parts of a shard.
    ///
    /// The number of evictions is counted modulo the range of a `usize`.
    pub fn displace_shard(
        &self,
        hashes: &[Hx::H],
        part_starts: &[u32],
        sorted: &[SortedBuckets],
        pilots: &mut [u8],
        taken: &mut [Taken],
    ) -> (totals: Option<ShardTotals>)
        requires
            self.shard_ok(hashes@, part_starts@, sorted@, old(pilots)@, old(taken)@),
            self.chunk_count(old(pilots)@, old(taken)@) == self.parts_per_shard || exists|f: int|
                0 <= f < self.chunk_count(old(pilots)@, old(taken)@) && !(
                #[trigger] self.part_outcome(
                    hashes@,
                    part_starts@,
                    sorted@,
                    old(pilots)@,
                    old(taken)@,
                    f,
                )).ok(),
        ensures
            match totals {
                Some(n) => {
                    &&& self.parts_done(
                        hashes@,
                        part_starts@,
                        sorted@,
                        old(pilots)@,
                        old(taken)@,
                        self.parts_per_shard as int,
                        final(pilots)@,
                        final(taken)@,
                    )
                    &&& forall|i: int|
                        0 <= i < self.parts_per_shard ==> (#[trigger] self.part_outcome(
                            hashes@,
                            part_starts@,
                            sorted@,
                            old(pilots)@,
                            old(taken)@,
                            i,
                        )).ok()
                    &&& forall|i: int|
                        0 <= i < self.parts_per_shard ==> #[trigger] self.part_perfect(
                            hashes@,
                            part_starts@,
                            sorted@,
                            final(pilots)@,
                            i,
                        )
                    &&& n.displacements == sum(
                        self.part_counts(
                            hashes@,
                            part_starts@,
                            sorted@,
                            old(pilots)@,
                            old(taken)@,
                            self.parts_per_shard as int,
                        ),
                    ) % (usize::MAX + 1)
                    &&& n.pilots == pilot_sum(final(pilots)@)
                    &&& self.chunk_count(old(pilots)@, old(taken)@) == self.parts_per_shard
                    &&& forall|part: int, i: int, k: int, j: int, l: int|
                        #![trigger
                            sorted@[part].order@[i],
                            hashes@[k],
                            sorted@[part].order@[j],
                            hashes@[l]]
                        {
                            let starts = sorted@[part].starts@;
                            let b = sorted@[part].order@[i].0;
                            let c = sorted@[part].order@[j].0;
                            &&& 0 <= part < self.parts_per_shard
                            &&& 0 <= i < sorted@[part].order@.len()
                            &&& 0 <= j < sorted@[part].order@.len()
                            &&& starts[b as int] <= k - part_starts@[part] < starts[b + 1]
                            &&& starts[c as int] <= l - part_starts@[part] < starts[c + 1]
                            &&& k != l
                        } ==> self.hasher.slot(
                            hashes@[k],
                            self.hasher.pilot_hash(
                                final(pilots)@[part * self.b + sorted@[part].order@[i].0] as u64,
                            ),
                        ) != self.hasher.slot(
                            hashes@[l],
                            self.hasher.pilot_hash(
                                final(pilots)@[part * self.b + sorted@[part].order@[j].0] as u64,
                            ),
                        )
                },
                None => exists|f: int|
                    {
                        &&& 0 <= f < self.chunk_count(old(pilots)@, old(taken)@)
                        &&& !(#[trigger] self.part_outcome(
                            hashes@,
                            part_starts@,
                            sorted@,
                            old(pilots)@,
                            old(taken)@,
                            f,
                        )).ok()
                        &&& forall|i: int|
                            0 <= i < f ==> (#[trigger] self.part_outcome(
                                hashes@,
                                part_starts@,
                                sorted@,
                                old(pilots)@,
                                old(taken)@,
                                i,
                            )).ok()
                        &&& self.parts_done(
                            hashes@,
                            part_starts@,
                            sorted@,
                            old(pilots)@,
                            old(taken)@,
                            f + 1,
                            final(pilots)@,
                            final(taken)@,
                        )
                    },
            },
    {
        let ghost p0 = pilots@;
        let ghost t0 = taken@;
        let mut displacements: usize = 0;
        let mut i: usize = 0;
        let room: usize = pilots.len() / self.b;
        let parts: usize = if room <= taken.len() {
            room
        } else {
            taken.len()
        };
        proof {
            assert(self.part_counts(hashes@, part_starts@, sorted@, p0, t0, 0) =~= Seq::empty());
            vstd::arithmetic::div_mod::lemma_small_mod(0, (usize::MAX + 1) as nat);
        }
        while i < parts
            invariant
                self.shard_ok(hashes@, part_starts@, sorted@, p0, t0),
                p0 == old(pilots)@,
                t0 == old(taken)@,
                parts == self.chunk_count(p0, t0),
                0 <= i <= parts,
                self.parts_done(
                    hashes@,
                    part_starts@,
                    sorted@,
                    p0,
                    t0,
                    i as int,
                    pilots@,
                    taken@,
                ),
                forall|k: int|
                    0 <= k < i ==> (#[trigger] self.part_outcome(
                        hashes@,
                        part_starts@,
                        sorted@,
                        p0,
                        t0,
                        k,
                    )).ok(),
                forall|k: int|
                    0 <= k < i ==> #[trigger] self.part_perfect(
                        hashes@,
                        part_starts@,
                        sorted@,
                        pilots@,
                        k,
                    ),
                displacements == sum(
                    self.part_counts(hashes@, part_starts@, sorted@, p0, t0, i as int),
                ) % (usize::MAX + 1),
            decreases parts - i,
        {
            let ghost before = pilots@;
            match self.displace_next(
                i,
                hashes,
                part_starts,
                sorted,
                pilots,
                taken,
                Ghost(p0),
                Ghost(t0),
            ) {
                Ok(n) => {
                    proof {
                        self.lemma_next_count(
                            hashes@,
                            part_starts@,
                            sorted@,
                            p0,
                            t0,
                            i as int,
                            n,
                            displacements,
                        );
                        assert forall|k: int| 0 <= k < i implies #[trigger] self.part_perfect(
                            hashes@,
                            part_starts@,
                            sorted@,
                            pilots@,
                            k,
                        ) by {
                            assert(self.part_perfect(hashes@, part_starts@, sorted@, before, k));
                            assert(chunk(pilots@, self.b as int, k) == chunk(
                                before,
                                self.b as int,
                                k,
                            ));
                        }
                    }
                    displacements = displacements.wrapping_add(n);
                },
                Err(_) => {
                    return None;
                },
            }
            i += 1;
        }
        proof {
            self.lemma_shard_apart(
                hashes@,
                part_starts@,
                sorted@,
                p0,
                t0,
                parts as int,
                pilots@,
                taken@,
            );
        }
        Some(ShardTotals { displacements, pilots: sum_pilots(pilots) })
    }
}

/// The chunks of as many parts as there is room for lie within the pilots.
proof fn lemma_whole_chunks(len: int, b: int, n: int)
    requires
        0 <= len,
        0 < b,
        n <= len / b,
    ensures
        n * b <= len,
{
    vstd::arithmetic::div_mod::lemma_fundamental_div_mod(len, b);
    assert(n * b <= b * (len / b)) by (nonlinear_arith)
        requires
            n <= len / b,
            0 < b,
    ;
}

/// The chunk of part `i` lies before the end of the chunks of `n` parts.
pub(crate) proof fn lemma_chunks(i: int, n: int, b: int)
    requires
        0 <= i < n,
        0 <= b,
    ensures
        0 <= i * b,
        i * b + b <= n * b,
{
    assert(0 <= i * b && i * b + b <= n * b) by (nonlinear_arith)
        requires
            0 <= i < n,
            0 <= b,
    ;
}

impl<Hx: PilotHasher> PtrHash<Hx> {
    /// The pilots and the slots in use after the search on part `i`.
    pub open spec fn after_part(
        &self,
        hashes: Seq<Hx::H>,
        part_starts: Seq<u32>,
        sorted: Seq<SortedBuckets>,
        state: (Seq<u8>, Seq<Seq<bool>>),
        i: int,
    ) -> (Seq<u8>, Seq<Seq<bool>>) {
        let b = self.b as int;
        let m = self.displaced(
            self.part_hashes(hashes, part_starts, i),
            sorted[i],
            chunk(state.0, b, i),
            state.1[i],
        );
        (
            Seq::new(
                state.0.len(),
                |j: int|
                    if i * b <= j < i * b + b {
                        m.pilots[j - i * b]
                    } else {
                        state.0[j]
                    },
            ),
            state.1.update(i, m.taken),
        )
    }

    /// The pilots and the slots in use after the search on the parts of `parts`, one after
    /// the other.
    pub open spec fn after_parts(
        &self,
        hashes: Seq<Hx::H>,
        part_starts: Seq<u32>,
        sorted: Seq<SortedBuckets>,
        state: (Seq<u8>, Seq<Seq<bool>>),
        parts: Seq<int>,
    ) -> (Seq<u8>, Seq<Seq<bool>>)
        decreases parts.len(),
    {
        if parts.len() == 0 {
            state
        } else {
            self.after_part(
                hashes,
                part_starts,
                sorted,
                self.after_parts(hashes, part_starts, sorted, state, parts.drop_last()),
                parts.last(),
            )
        }
    }

    /// Each part that was searched has the outcome that it has on its own, and every other
    /// part is as it was.
    proof fn lemma_after_parts(
        &self,
        hashes: Seq<Hx::H>,
        part_starts: Seq<u32>,
        sorted: Seq<SortedBuckets>,
        pilots: Seq<u8>,
        taken: Seq<Taken>,
        parts: Seq<int>,
        n: int,
    )
        requires
            parts.no_duplicates(),
            forall|k: int| 0 <= k < parts.len() ==> 0 <= #[trigger] parts[k] < n,
            n * self.b <= pilots.len(),
            n <= taken.len(),
        ensures
            ({
                let b = self.b as int;
                let bits = taken.map_values(|t: Taken| t@);
                let (p, t) = self.after_parts(hashes, part_starts, sorted, (pilots, bits), parts);
                &&& p.len() == pilots.len()
                &&& t.len() == taken.len()
                &&& forall|i: int, j: int|
                    #![trigger parts.contains(i), p[j]]
                    0 <= i < n && i * b <= j < i * b + b ==> p[j] == if parts.contains(i) {
                        self.part_outcome(
                            hashes,
                            part_starts,
                            sorted,
                            pilots,
                            taken,
                            i,
                        ).pilots[j - i * b]
                    } else {
                        pilots[j]
                    }
                &&& forall|j: int| n * b <= j < pilots.len() ==> #[trigger] p[j] == pilots[j]
                &&& forall|i: int|
                    0 <= i < taken.len() ==> #[trigger] t[i] == if parts.contains(i) {
                        self.part_outcome(hashes, part_starts, sorted, pilots, taken, i).taken
                    } else {
                        taken[i]@
                    }
            }),
        decreases parts.len(),
    {
        let b = self.b as int;
        let bits = taken.map_values(|t: Taken| t@);
        let (p, t) = self.after_parts(hashes, part_starts, sorted, (pilots, bits), parts);
        if parts.len() > 0 {
            let rest = parts.drop_last();
            let k = parts.last();
            let (q, u) = self.after_parts(hashes, part_starts, sorted, (pilots, bits), rest);
            assert forall|l: int| 0 <= l < rest.len() implies 0 <= #[trigger] rest[l] < n by {
                assert(rest[l] == parts[l]);
            }
            self.lemma_after_parts(hashes, part_starts, sorted, pilots, taken, rest, n);
            assert(parts[parts.len() - 1] == k);
            assert(!rest.contains(k)) by {
                if rest.contains(k) {
                    let l = choose|l: int| 0 <= l < rest.len() && rest[l] == k;
                    assert(parts[l] == parts[parts.len() - 1]);
                }
            }
            assert forall|i: int| #[trigger] parts.contains(i) <==> rest.contains(i) || i == k by {
                if rest.contains(i) {
                    let l = choose|l: int| 0 <= l < rest.len() && rest[l] == i;
                    assert(parts[l] == i);
                }
                if parts.contains(i) && i != k {
                    let l = choose|l: int| 0 <= l < parts.len() && parts[l] == i;
                    assert(rest[l] == i);
                }
            }
            lemma_chunks(k, n, b);
            assert(chunk(q, b, k) =~= chunk(pilots, b, k)) by {
                assert forall|j: int| k * b <= j < k * b + b implies #[trigger] q[j] == pilots[j] by {
                    assert(!rest.contains(k));
                }
            }
            let m = self.part_outcome(hashes, part_starts, sorted, pilots, taken, k);
            assert(u[k] == taken[k]@);
            assert forall|i: int, j: int|
                #![trigger parts.contains(i), p[j]]
                0 <= i < n && i * b <= j < i * b + b implies p[j] == if parts.contains(i) {
                self.part_outcome(hashes, part_starts, sorted, pilots, taken, i).pilots[j - i * b]
            } else {
                pilots[j]
            } by {
                lemma_chunks(i, n, b);
                if i < k {
                    lemma_chunks(i, k, b);
                }
                if k < i {
                    lemma_chunks(k, i, b);
                }
                assert(rest.contains(i) || !rest.contains(i));
                if i != k {
                    assert(p[j] == q[j]);
                }
            }
        }
    }

    /// **The order of the parts.** In whatever order the parts of a shard are searched, once
    /// each of them was, the pilots and the slots in use are those that
    /// [`Self::displace_shard`] leaves.
    pub proof fn lemma_part_order(
        &self,
        hashes: Seq<Hx::H>,
        part_starts: Seq<u32>,
        sorted: Seq<SortedBuckets>,
        pilots: Seq<u8>,
        taken: Seq<Taken>,
        n: int,
        new_pilots: Seq<u8>,
        new_taken: Seq<Taken>,
        parts: Seq<int>,
    )
        requires
            self.b > 0,
            0 <= n <= self.chunk_count(pilots, taken),
            self.parts_done(
                hashes,
                part_starts,
                sorted,
                pilots,
                taken,
                n,
                new_pilots,
                new_taken,
            ),
            parts.no_duplicates(),
            forall|i: int| #[trigger] parts.contains(i) <==> 0 <= i < n,
        ensures
            self.after_parts(
                hashes,
                part_starts,
                sorted,
                (pilots, taken.map_values(|t: Taken| t@)),
                parts,
            ) == (new_pilots, new_taken.map_values(|t: Taken| t@)),
    {
        let b = self.b as int;
        let bits = taken.map_values(|t: Taken| t@);
        let (p, t) = self.after_parts(hashes, part_starts, sorted, (pilots, bits), parts);
        lemma_whole_chunks(pilots.len() as int, b, n);
        assert forall|k: int| 0 <= k < parts.len() implies 0 <= #[trigger] parts[k] < n by {
            assert(parts.contains(parts[k]));
        }
        self.lemma_after_parts(hashes, part_starts, sorted, pilots, taken, parts, n);
        assert forall|j: int| 0 <= j < pilots.len() implies p[j] == new_pilots[j] by {
            if j < n * b {
                let i = j / b;
                vstd::arithmetic::div_mod::lemma_fundamental_div_mod(j, b);
                assert(0 <= i < n && i * b <= j < i * b + b) by (nonlinear_arith)
                    requires
                        j == b * i + j % b,
                        0 <= j % b < b,
                        0 <= j < n * b,
                        0 < b,
                ;
                lemma_chunks(i, n, b);
                assert(parts.contains(i));
                assert(chunk(new_pilots, b, i)[j - i * b] == new_pilots[j]);
            }
        }
        assert(p =~= new_pilots);
        assert forall|i: int| 0 <= i < taken.len() implies t[i] == new_taken[i]@ by {
            assert(parts.contains(i) <==> 0 <= i < n);
        }
        assert(t =~= new_taken.map_values(|t: Taken| t@));
    }
}

} // verus!
