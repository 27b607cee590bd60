//! What the search on a part does with the keys of the part.
//!
//! Key `k` of a part has hash `hashes[k]`, and is in bucket `b` if `k` lies from `starts[b]`
//! up to `starts[b + 1]`. Under pilot `p` its slot is
//! `hasher.slot(hashes[k], hasher.pilot_hash(p))`.

use crate::bucket_idx::BucketIdx;
use crate::displace::PtrHash;
use crate::hasher::PilotHasher;
use crate::laws;
use crate::placement;
use crate::placement::{Board, Chain, Failure, Table};
use crate::run_laws;
use crate::sorted_buckets::SortedBuckets;
use vstd::prelude::*;

verus! {

/// A search succeeded if there is no reason why it failed.
pub proof fn lemma_ok(m: Board)
    ensures
        m.ok() <==> m.failure is None,
{
}

impl<Hx: PilotHasher> PtrHash<Hx> {
    /// The shape of a function is valid if its hasher is, and both speak of the same number
    /// of slots.
    pub proof fn lemma_valid(&self)
        ensures
            self.valid() <==> self.hasher.valid() && self.hasher.slot_count() == self.s,
    {
    }

    /// `t` lists, for each bucket and each of the 256 pilots, the slots of the bucket's keys.
    pub open spec fn is_table(
        &self,
        hashes: Seq<Hx::H>,
        starts: Seq<u32>,
        t: Table,
    ) -> bool {
        &&& t.len() == starts.len() - 1
        &&& forall|b: int| 0 <= b < t.len() ==> (#[trigger] t[b]).len() == 256
        &&& forall|b: int, p: int|
            0 <= b < t.len() && 0 <= p < 256 ==> (#[trigger] t[b][p]).len() == starts[b + 1]
                - starts[b]
        &&& forall|b: int, p: int, i: int|
            0 <= b < t.len() && 0 <= p < 256 && 0 <= i < starts[b + 1] - starts[b] ==> (
            #[trigger] t[b][p][i]) == self.hasher.slot(
                hashes[starts[b] + i],
                self.hasher.pilot_hash(p as u64),
            )
    }

    /// There is just one such table, the one that the search works on.
    pub proof fn lemma_table(&self, hashes: Seq<Hx::H>, sorted: SortedBuckets, t: Table)
        requires
            sorted.valid(hashes.len() as int),
        ensures
            self.is_table(hashes, sorted.starts@, t) <==> t == self.table(hashes, sorted),
    {
        let u = self.table(hashes, sorted);
        let starts = sorted.starts@;
        assert forall|b: int, p: int| 0 <= b < u.len() && 0 <= p < 256 implies (
        #[trigger] u[b][p]).len() == starts[b + 1] - starts[b] && forall|i: int|
            0 <= i < starts[b + 1] - starts[b] ==> (#[trigger] u[b][p][i]) == self.hasher.slot(
                hashes[starts[b] + i],
                self.hasher.pilot_hash(p as u64),
            ) by {
            assert(starts[b + 1] <= starts[starts.len() - 1]);
            assert(u[b][p] == self.bucket_slots(
                sorted.bucket(hashes, b),
                self.hasher.pilot_hash(p as u64),
            ));
        }
        if self.is_table(hashes, starts, t) {
            assert forall|b: int| 0 <= b < t.len() implies t[b] == u[b] by {
                assert forall|p: int| 0 <= p < 256 implies t[b][p] == u[b][p] by {
                    assert(t[b][p] =~= u[b][p]);
                }
                assert(t[b] =~= u[b]);
            }
            assert(t =~= u);
        }
    }

    /// **The search on a part is a run** over the buckets of the order, one after the other,
    /// on the slots that the hasher gives the keys of the part.
    pub proof fn lemma_search(
        &self,
        hashes: Seq<Hx::H>,
        sorted: SortedBuckets,
        pilots: Seq<u8>,
        taken: Seq<bool>,
        t: Table,
    ) -> (run: Seq<Board>)
        requires
            sorted.valid(hashes.len() as int),
            self.is_table(hashes, sorted.starts@, t),
        ensures
            run_laws::is_run(t, self.s as int, sorted.order@, pilots, taken, run),
            run[sorted.order@.len() as int] == self.displaced(hashes, sorted, pilots, taken),
    {
        self.lemma_table(hashes, sorted, t);
        run_laws::lemma_run(t, self.s as int, sorted.order@, pilots, taken)
    }

    /// **Why the search fails.** A search that fails does so at some bucket of the order. The
    /// chain that this bucket starts ends where one of these holds:
    ///
    /// - its length is above the number of slots, at least ten times that number, and a power
    ///   of two, or the number of evictions leaves the range of a `usize`;
    /// - the next bucket that waits has no pilot under which its slots are distinct and free,
    ///   and under each pilot two of its keys share a slot or it would evict one of the last
    ///   four buckets of the history.
    pub proof fn lemma_why_it_fails(
        &self,
        hashes: Seq<Hx::H>,
        sorted: SortedBuckets,
        pilots: Seq<u8>,
        taken: Seq<bool>,
        t: Table,
        why: Failure,
    ) -> (at: (Seq<Board>, int, Seq<Chain>))
        requires
            sorted.valid(hashes.len() as int),
            self.is_table(hashes, sorted.starts@, t),
            self.displaced(hashes, sorted, pilots, taken).failure == Some(why),
        ensures
            ({
                let (run, i, chain) = at;
                let end = chain[chain.len() - 1];
                let b = end.stack[end.stack.len() - 1];
                &&& run_laws::is_run(t, self.s as int, sorted.order@, pilots, taken, run)
                &&& 0 <= i < sorted.order@.len()
                &&& run[i].failure is None
                &&& run_laws::is_chain_of(t, self.s as int, run[i], sorted.order@[i], chain)
                &&& match why {
                    Failure::TooManyDisplacements => {
                        ||| {
                            &&& end.count > self.s
                            &&& end.count >= 10 * self.s
                            &&& exists|k: nat|
                                end.count == #[trigger] vstd::arithmetic::power2::pow2(k)
                        }
                        ||| run[i].total + end.count > usize::MAX
                        ||| exists|p: int|
                            0 <= p < 256 && end.count + (#[trigger] t[b.0 as int][p]).len()
                                > usize::MAX
                    },
                    Failure::Indistinguishable(e) => {
                        &&& e == b
                        &&& forall|p: int|
                            0 <= p < 256 ==> {
                                let slots = #[trigger] t[e.0 as int][p];
                                &&& !run_laws::is_free(slots, end.taken)
                                &&& !run_laws::is_allowed(slots, end.owner, end.history)
                            }
                    },
                }
            }),
    {
        let run = self.lemma_search(hashes, sorted, pilots, taken, t);
        let n = sorted.order@.len() as int;
        let i = lemma_first_failure(run, n);
        let m = run[i];
        let b = sorted.order@[i];
        let s = self.s as int;
        let after = run[i + 1];
        assert(run_laws::follows(t, s, run[i], b, run[i + 1]));
        lemma_failure_stays(t, s, sorted.order@, pilots, taken, run, i + 1, n);
        let chain = choose|chain: Seq<Chain>| #[trigger]
            run_laws::is_chain_of(t, s, m, b, chain) && run_laws::is_result(
                t,
                s,
                m,
                b,
                chain,
                after,
            );
        let end = chain[chain.len() - 1];
        let e = end.stack[end.stack.len() - 1];
        let goal = (t[b.0 as int][0].len() * t[b.0 as int][0].len()) as int;
        if end.stack.len() > 0 && !run_laws::is_overlong(end.count, s) && why
            == Failure::TooManyDisplacements {
            let k = choose|k: int| #[trigger]
                run_laws::is_choice(t, goal, end, e, k) && end.count + run_laws::turn(
                    t,
                    end,
                    e,
                    k,
                ).len() > usize::MAX;
            let p = (end.pilots[e.0 as int] + 1 + k) % 256;
            assert(end.count + t[e.0 as int][p].len() > usize::MAX);
        }
        (run, i, chain)
    }
}

/// The last board of a run before the first with a failure.
proof fn lemma_first_failure(run: Seq<Board>, n: int) -> (i: int)
    requires
        0 <= n < run.len(),
        run[0].failure is None,
        run[n].failure is Some,
    ensures
        0 <= i < n,
        run[i].failure is None,
        run[i + 1].failure is Some,
    decreases n,
{
    if run[n - 1].failure is None {
        n - 1
    } else {
        lemma_first_failure(run, n - 1)
    }
}

/// After the first failure a run does not change.
proof fn lemma_failure_stays(
    t: Table,
    s: int,
    order: Seq<BucketIdx>,
    pilots: Seq<u8>,
    taken: Seq<bool>,
    run: Seq<Board>,
    i: int,
    n: int,
)
    requires
        run_laws::is_run(t, s, order, pilots, taken, run),
        0 <= i <= n < run.len(),
        run[i].failure is Some,
    ensures
        run[n] == run[i],
    decreases n,
{
    if i < n {
        lemma_failure_stays(t, s, order, pilots, taken, run, i, n - 1);
        assert(run_laws::follows(t, s, run[n - 1], order[n - 1], run[n]));
    }
}

impl<Hx: PilotHasher> PtrHash<Hx> {
    /// Slot `x` is in use when it is the turn of the bucket with rank `j`, if each bucket of
    /// a lower rank `i` has taken its slots under pilot `first[i]`.
    pub open spec fn in_use(
        &self,
        hashes: Seq<Hx::H>,
        sorted: SortedBuckets,
        taken: Seq<bool>,
        first: Seq<int>,
        j: int,
        x: int,
    ) -> bool {
        taken[x] || exists|i: int, k: int|
            #![trigger sorted.order@[i], hashes[k]]
            {
                &&& 0 <= i < j
                &&& sorted.starts@[sorted.order@[i].0 as int] <= k < sorted.starts@[sorted.order@[i].0
                    + 1]
                &&& self.hasher.slot(hashes[k], self.hasher.pilot_hash(first[i] as u64)) == x
            }
    }

    /// The slots of the bucket with rank `j` under pilot `p` are distinct, and free when it is
    /// the bucket's turn.
    pub open spec fn is_free_in_turn(
        &self,
        hashes: Seq<Hx::H>,
        sorted: SortedBuckets,
        taken: Seq<bool>,
        first: Seq<int>,
        j: int,
        p: int,
    ) -> bool {
        let b = sorted.order@[j].0 as int;
        let hp = self.hasher.pilot_hash(p as u64);
        &&& forall|k: int, l: int|
            sorted.starts@[b] <= k < l < sorted.starts@[b + 1] ==> self.hasher.slot(
                #[trigger] hashes[k],
                hp,
            ) != self.hasher.slot(#[trigger] hashes[l], hp)
        &&& forall|k: int|
            sorted.starts@[b] <= k < sorted.starts@[b + 1] ==> !self.in_use(
                hashes,
                sorted,
                taken,
                first,
                j,
                self.hasher.slot(#[trigger] hashes[k], hp),
            )
    }

    /// To be free in turn is to fit.
    proof fn lemma_free_in_turn(
        &self,
        hashes: Seq<Hx::H>,
        sorted: SortedBuckets,
        taken: Seq<bool>,
        first: Seq<int>,
        j: int,
        p: int,
        now: Seq<bool>,
    )
        requires
            self.valid(),
            sorted.valid(hashes.len() as int),
            taken.len() >= self.s,
            0 <= j < sorted.order@.len(),
            0 <= p < 256,
            now.len() == taken.len(),
            forall|x: int|
                0 <= x < taken.len() ==> #[trigger] now[x] == self.in_use(
                    hashes,
                    sorted,
                    taken,
                    first,
                    j,
                    x,
                ),
        ensures
            self.is_free_in_turn(hashes, sorted, taken, first, j, p) <==> placement::fits(
                self.table(hashes, sorted)[sorted.order@[j].0 as int][p],
                now,
            ),
    {
        let t = self.table(hashes, sorted);
        let b = sorted.order@[j].0 as int;
        let hp = self.hasher.pilot_hash(p as u64);
        let slots = t[b][p];
        let from = sorted.starts@[b] as int;
        assert(!sorted.order@[j].absent());
        self.lemma_table(hashes, sorted, t);
        assert(slots.len() == sorted.starts@[b + 1] - from);
        assert forall|i: int| 0 <= i < slots.len() implies 0 <= #[trigger] slots[i] < taken.len()
            && slots[i] == self.hasher.slot(hashes[from + i], hp) by {
            assert(t[b][p][i] == self.hasher.slot(hashes[from + i], hp));
            self.hasher.lemma_slot_in_part(hashes[from + i], hp);
        }
        run_laws::lemma_is_free(slots, now);
        if self.is_free_in_turn(hashes, sorted, taken, first, j, p) {
            assert forall|i: int, l: int| 0 <= i < l < slots.len() implies #[trigger] slots[i]
                != #[trigger] slots[l] by {
                assert(self.hasher.slot(hashes[from + i], hp) != self.hasher.slot(
                    hashes[from + l],
                    hp,
                ));
            }
            assert forall|i: int| 0 <= i < slots.len() implies !now[#[trigger] slots[i]] by {
                assert(!self.in_use(
                    hashes,
                    sorted,
                    taken,
                    first,
                    j,
                    self.hasher.slot(hashes[from + i], hp),
                ));
            }
        }
        if run_laws::is_free(slots, now) {
            assert forall|k: int, l: int|
                sorted.starts@[b] <= k < l < sorted.starts@[b + 1] implies self.hasher.slot(
                #[trigger] hashes[k],
                hp,
            ) != self.hasher.slot(#[trigger] hashes[l], hp) by {
                assert(slots[k - from] != slots[l - from]);
            }
            assert forall|k: int|
                sorted.starts@[b] <= k < sorted.starts@[b + 1] implies !self.in_use(
                hashes,
                sorted,
                taken,
                first,
                j,
                self.hasher.slot(#[trigger] hashes[k], hp),
            ) by {
                assert(!now[slots[k - from]]);
            }
        }
    }

    /// One bucket more takes its slots.
    proof fn lemma_in_use_next(
        &self,
        hashes: Seq<Hx::H>,
        sorted: SortedBuckets,
        taken: Seq<bool>,
        first: Seq<int>,
        j: int,
        x: int,
    )
        requires
            sorted.valid(hashes.len() as int),
            0 <= j < sorted.order@.len(),
            0 <= first[j] < 256,
        ensures
            self.in_use(hashes, sorted, taken, first, j + 1, x) <==> self.in_use(
                hashes,
                sorted,
                taken,
                first,
                j,
                x,
            ) || self.table(hashes, sorted)[sorted.order@[j].0 as int][first[j]].contains(x),
    {
        let t = self.table(hashes, sorted);
        let order = sorted.order@;
        let b = order[j].0 as int;
        let hp = self.hasher.pilot_hash(first[j] as u64);
        let slots = t[b][first[j]];
        let from = sorted.starts@[b] as int;
        assert(!order[j].absent());
        self.lemma_table(hashes, sorted, t);
        assert(slots.len() == sorted.starts@[b + 1] - from);
        if slots.contains(x) {
            let i = choose|i: int| 0 <= i < slots.len() && slots[i] == x;
            assert(t[b][first[j]][i] == self.hasher.slot(hashes[from + i], hp));
            assert(self.hasher.slot(
                hashes[from + i],
                self.hasher.pilot_hash(first[j] as u64),
            ) == x);
        }
        if self.in_use(hashes, sorted, taken, first, j + 1, x) && !self.in_use(
            hashes,
            sorted,
            taken,
            first,
            j,
            x,
        ) {
            let (i, k) = choose|i: int, k: int|
                #![trigger order[i], hashes[k]]
                {
                    &&& 0 <= i < j + 1
                    &&& sorted.starts@[order[i].0 as int] <= k < sorted.starts@[order[i].0 + 1]
                    &&& self.hasher.slot(hashes[k], self.hasher.pilot_hash(first[i] as u64)) == x
                };
            assert(i == j);
            assert(t[b][first[j]][k - from] == x);
        }
    }

    /// The first `j` buckets find their slots free.
    proof fn lemma_free_prefix(
        &self,
        hashes: Seq<Hx::H>,
        sorted: SortedBuckets,
        pilots: Seq<u8>,
        taken: Seq<bool>,
        first: Seq<int>,
        j: int,
    )
        requires
            self.valid(),
            sorted.valid(hashes.len() as int),
            pilots.len() >= sorted.starts@.len() - 1,
            taken.len() >= self.s,
            0 <= j <= sorted.order@.len() == first.len(),
            forall|i: int| 0 <= i < first.len() ==> 0 <= #[trigger] first[i] < 256,
            forall|i: int|
                0 <= i < first.len() ==> self.is_free_in_turn(
                    hashes,
                    sorted,
                    taken,
                    first,
                    i,
                    #[trigger] first[i],
                ),
            forall|i: int, q: int|
                0 <= i < first.len() && 0 <= q < first[i] ==> !#[trigger] self.is_free_in_turn(
                    hashes,
                    sorted,
                    taken,
                    first,
                    i,
                    q,
                ),
        ensures
            ({
                let m = Board::start(self.s as int, pilots, taken).add_all(
                    self.table(hashes, sorted),
                    self.s as int,
                    sorted.order@.take(j),
                );
                &&& m.failure is None
                &&& m.total == 0
                &&& m.pilots.len() == pilots.len()
                &&& forall|i: int|
                    0 <= i < j ==> m.pilots[(#[trigger] sorted.order@[i]).0 as int] == first[i]
                &&& forall|e: int|
                    0 <= e < pilots.len() && (forall|i: int|
                        0 <= i < j ==> (#[trigger] sorted.order@[i]).0 != e) ==> (
                    #[trigger] m.pilots[e]) == pilots[e]
                &&& m.taken.len() == taken.len()
                &&& forall|x: int|
                    0 <= x < taken.len() ==> #[trigger] m.taken[x] == self.in_use(
                        hashes,
                        sorted,
                        taken,
                        first,
                        j,
                        x,
                    )
            }),
        decreases j,
    {
        let t = self.table(hashes, sorted);
        let s = self.s as int;
        let order = sorted.order@;
        let start = Board::start(s, pilots, taken);
        if j > 0 {
            self.lemma_free_prefix(hashes, sorted, pilots, taken, first, j - 1);
            let before = start.add_all(t, s, order.take(j - 1));
            let m = start.add_all(t, s, order.take(j));
            let b = order[j - 1];
            let p = first[j - 1];
            assert(order.take(j).drop_last() =~= order.take(j - 1));
            assert(order.take(j).last() == b);
            assert(m == before.add(t, s, b));
            assert(!order[j - 1].absent());
            self.lemma_table(hashes, sorted, t);
            assert forall|q: int| 0 <= q <= p implies (placement::fits(
                #[trigger] t[b.at()][q],
                before.taken,
            ) <==> q == p) by {
                self.lemma_free_in_turn(
                    hashes,
                    sorted,
                    taken,
                    first,
                    j - 1,
                    q,
                    before.taken,
                );
                assert(q < p ==> !self.is_free_in_turn(hashes, sorted, taken, first, j - 1, q));
            }
            assert(t[b.at()][0].len() == t[b.at()][p].len());
            if placement::size(t, b.at()) == 0 {
                if p > 0 {
                    assert(placement::fits(t[b.at()][0], before.taken));
                }
            } else {
                assert(placement::is_first_fit(t[b.at()], before.taken, 256, p));
                laws::lemma_free_bucket(t, s, before, b, p);
            }
            assert forall|i: int| 0 <= i < j implies m.pilots[(#[trigger] order[i]).0 as int]
                == first[i] by {
                if i < j - 1 {
                    assert(order[i] != order[j - 1]);
                    assert(!order[i].absent());
                }
            }
            assert forall|e: int|
                0 <= e < pilots.len() && (forall|i: int|
                    0 <= i < j ==> (#[trigger] order[i]).0 != e) implies (#[trigger] m.pilots[e])
                == pilots[e] by {
                assert(order[j - 1].0 != e);
                assert(before.pilots[e] == pilots[e]);
            }
            assert forall|x: int| 0 <= x < taken.len() implies #[trigger] m.taken[x]
                == self.in_use(hashes, sorted, taken, first, j, x) by {
                self.lemma_in_use_next(hashes, sorted, taken, first, j - 1, x);
                assert(before.taken[x] == self.in_use(hashes, sorted, taken, first, j - 1, x));
            }
        } else {
            assert(order.take(j) =~= Seq::empty());
        }
    }

    /// **No failure without a conflict.** If each bucket of the order in turn has a pilot
    /// under which its slots are distinct and free, and `first` lists the first such pilot of
    /// each, the search succeeds and evicts nothing. These are then the pilots of the
    /// buckets, all other pilots are as they were, and exactly the slots of the keys are in
    /// use besides those that were.
    pub proof fn lemma_free_search(
        &self,
        hashes: Seq<Hx::H>,
        sorted: SortedBuckets,
        pilots: Seq<u8>,
        taken: Seq<bool>,
        first: Seq<int>,
    )
        requires
            self.valid(),
            sorted.valid(hashes.len() as int),
            pilots.len() >= sorted.starts@.len() - 1,
            taken.len() >= self.s,
            first.len() == sorted.order@.len(),
            forall|i: int| 0 <= i < first.len() ==> 0 <= #[trigger] first[i] < 256,
            forall|i: int|
                0 <= i < first.len() ==> self.is_free_in_turn(
                    hashes,
                    sorted,
                    taken,
                    first,
                    i,
                    #[trigger] first[i],
                ),
            forall|i: int, q: int|
                0 <= i < first.len() && 0 <= q < first[i] ==> !#[trigger] self.is_free_in_turn(
                    hashes,
                    sorted,
                    taken,
                    first,
                    i,
                    q,
                ),
        ensures
            ({
                let m = self.displaced(hashes, sorted, pilots, taken);
                &&& m.failure is None
                &&& m.total == 0
                &&& m.pilots.len() == pilots.len()
                &&& forall|i: int|
                    0 <= i < first.len() ==> m.pilots[(#[trigger] sorted.order@[i]).0 as int]
                        == first[i]
                &&& forall|e: int|
                    0 <= e < pilots.len() && (forall|i: int|
                        0 <= i < first.len() ==> (#[trigger] sorted.order@[i]).0 != e) ==> (
                    #[trigger] m.pilots[e]) == pilots[e]
                &&& m.taken.len() == taken.len()
                &&& forall|x: int|
                    0 <= x < taken.len() ==> #[trigger] m.taken[x] == self.in_use(
                        hashes,
                        sorted,
                        taken,
                        first,
                        first.len() as int,
                        x,
                    )
            }),
    {
        self.lemma_free_prefix(hashes, sorted, pilots, taken, first, first.len() as int);
        assert(sorted.order@.take(first.len() as int) =~= sorted.order@);
    }
}

/// A bucket that fits somewhere starts no eviction, and is not given up.
proof fn lemma_free_turn(t: Table, s: int, m: Board, b: BucketIdx, n: Board, p: int)
    requires
        0 <= s,
        m.failure is None,
        m.total == 0,
        run_laws::follows(t, s, m, b, n),
        0 <= p < 256,
        run_laws::is_free(t[b.0 as int][p], m.taken),
    ensures
        n.failure is None,
        n.total == 0,
{
    if t[b.0 as int][0].len() > 0 {
        let chain = choose|chain: Seq<Chain>| #[trigger]
            run_laws::is_chain_of(t, s, m, b, chain) && run_laws::is_result(t, s, m, b, chain, n);
        let goal = (t[b.0 as int][0].len() * t[b.0 as int][0].len()) as int;
        let c = chain[0];
        assert(c.stack[c.stack.len() - 1] == b);
        assert(!run_laws::is_stuck(t, c)) by {
            assert(run_laws::is_free(t[c.stack[c.stack.len() - 1].0 as int][p], c.taken));
        }
        assert(!run_laws::is_overlong(c.count, s));
        if chain.len() > 1 {
            let d = chain[1];
            assert(run_laws::steps(t, s, goal, chain[0], chain[1]));
            let q = choose|q: int| #[trigger] run_laws::settles(t, c, d, q);
            assert(run_laws::settles(t, c, d, q));
            assert(d.stack.len() == 0 && d.count == 0);
            if chain.len() > 2 {
                assert(run_laws::steps(t, s, goal, chain[1], chain[2]));
            }
        }
    }
}

/// A run in which each bucket fits somewhere in its turn evicts nothing.
proof fn lemma_free_turns(
    t: Table,
    s: int,
    order: Seq<BucketIdx>,
    pilots: Seq<u8>,
    taken: Seq<bool>,
    run: Seq<Board>,
    n: int,
)
    requires
        0 <= s,
        run_laws::is_run(t, s, order, pilots, taken, run),
        0 <= n <= order.len(),
        forall|i: int|
            0 <= i < order.len() ==> run_laws::has_room(
                t[order[i].0 as int],
                (#[trigger] run[i]).taken,
            ),
    ensures
        run[n].failure is None,
        run[n].total == 0,
    decreases n,
{
    if n > 0 {
        let i = n - 1;
        lemma_free_turns(t, s, order, pilots, taken, run, i);
        assert(run_laws::follows(t, s, run[i], order[i], run[n]));
        let p = choose|p: int|
            0 <= p < 256 && run_laws::is_free(#[trigger] t[order[i].0 as int][p], run[i].taken);
        lemma_free_turn(t, s, run[i], order[i], run[n], p);
    }
}

impl<Hx: PilotHasher> PtrHash<Hx> {
    /// **No eviction without need.** In the run of a search, if each bucket of the order in
    /// its turn has some pilot under which its slots are distinct and free, the search
    /// succeeds and evicts nothing.
    pub proof fn lemma_every_turn_free(
        &self,
        hashes: Seq<Hx::H>,
        sorted: SortedBuckets,
        pilots: Seq<u8>,
        taken: Seq<bool>,
        t: Table,
    ) -> (run: Seq<Board>)
        requires
            sorted.valid(hashes.len() as int),
            self.is_table(hashes, sorted.starts@, t),
        ensures
            run_laws::is_run(t, self.s as int, sorted.order@, pilots, taken, run),
            (forall|i: int|
                0 <= i < sorted.order@.len() ==> run_laws::has_room(
                    t[sorted.order@[i].0 as int],
                    (#[trigger] run[i]).taken,
                )) ==> {
                let m = self.displaced(hashes, sorted, pilots, taken);
                m.failure is None && m.total == 0
            },
    {
        let run = self.lemma_search(hashes, sorted, pilots, taken, t);
        let n = sorted.order@.len() as int;
        if forall|i: int|
            0 <= i < n ==> run_laws::has_room(
                t[sorted.order@[i].0 as int],
                (#[trigger] run[i]).taken,
            ) {
            lemma_free_turns(t, self.s as int, sorted.order@, pilots, taken, run, n);
        }
        run
    }
}

/// A chain changes no pilot but those of buckets that were begun.
proof fn lemma_settle_keeps(
    t: Table,
    s: int,
    goal: int,
    order: Seq<BucketIdx>,
    before: Seq<bool>,
    c: Chain,
    e: int,
)
    requires
        placement::table_ok(t, s),
        laws::order_ok(t, order),
        c.holds(t, s, order, before),
        0 <= e < c.pilots.len(),
        forall|i: int| 0 <= i < order.len() ==> (#[trigger] order[i]).0 != e,
    ensures
        c.settle(t, s, goal).1.pilots[e] == c.pilots[e],
    decreases usize::MAX - c.count, c.stack.len(),
{
    if c.stack.len() > 0 {
        let b = c.stack.last();
        let rest = c.pop();
        assert(order.contains(c.stack[c.stack.len() - 1]));
        let n = choose|n: int| 0 <= n < order.len() && order[n] == b;
        assert(order[n].0 != e && !order[n].absent());
        if !placement::too_long(c.count, s) {
            match placement::first_fit(t[b.at()], rest.taken) {
                Some(p) => {
                    laws::lemma_occupy(t, s, order, before, c, p);
                    lemma_settle_keeps(t, s, goal, order, before, rest.occupy(t, b, p), e);
                },
                None => {
                    laws::lemma_scan_picks(rest, t, goal, b, 256);
                    match rest.evicting_pilot(t, goal, b) {
                        Some(p) => if c.count + t[b.at()][p].len() <= usize::MAX {
                            placement::lemma_holders_len(rest.owner, t[b.at()][p]);
                            laws::lemma_evict(t, s, order, before, c, p);
                            lemma_settle_keeps(t, s, goal, order, before, rest.evict(t, b, p), e);
                        },
                        None => {},
                    }
                },
            }
        }
    }
}

/// A search changes no pilot but those of the buckets of the order.
proof fn lemma_add_all_keeps(
    t: Table,
    s: int,
    order: Seq<BucketIdx>,
    pilots: Seq<u8>,
    taken: Seq<bool>,
    e: int,
)
    requires
        placement::table_ok(t, s),
        laws::order_ok(t, order),
        0 <= s <= taken.len(),
        pilots.len() >= t.len(),
        0 <= e < pilots.len(),
        forall|i: int| 0 <= i < order.len() ==> (#[trigger] order[i]).0 != e,
    ensures
        Board::start(s, pilots, taken).add_all(t, s, order).pilots[e] == pilots[e],
    decreases order.len(),
{
    let m = Board::start(s, pilots, taken);
    if order.len() > 0 {
        let rest = order.drop_last();
        let b = order.last();
        assert(rest.push(b) =~= order);
        laws::lemma_order_prefix(t, order, order.len() - 1);
        assert forall|i: int| 0 <= i < rest.len() implies (#[trigger] rest[i]).0 != e by {
            assert(rest[i] == order[i]);
        }
        lemma_add_all_keeps(t, s, rest, pilots, taken, e);
        let before = m.add_all(t, s, rest);
        assert(order[order.len() - 1].0 != e && !order[order.len() - 1].absent());
        if before.ok() {
            laws::lemma_add_all(t, s, rest, pilots, taken);
            laws::lemma_add_all_len(t, s, rest, pilots, taken);
            laws::lemma_chain_start(t, s, rest, taken, before, b);
            lemma_settle_keeps(
                t,
                s,
                placement::size(t, b.at()) * placement::size(t, b.at()),
                order,
                taken,
                before.chain(b),
                e,
            );
        }
    }
}

impl<Hx: PilotHasher> PtrHash<Hx> {
    /// The table of a part is sound, and so is the order.
    proof fn lemma_sound(&self, hashes: Seq<Hx::H>, sorted: SortedBuckets)
        requires
            self.valid(),
            sorted.valid(hashes.len() as int),
        ensures
            placement::table_ok(self.table(hashes, sorted), self.s as int),
            laws::order_ok(self.table(hashes, sorted), sorted.order@),
    {
        let t = self.table(hashes, sorted);
        self.lemma_table(hashes, sorted, t);
        assert forall|b: int, p: int, i: int|
            0 <= b < t.len() && 0 <= p < 256 && 0 <= i < t[b][p].len() implies 0
            <= #[trigger] t[b][p][i] < self.s by {
            self.hasher.lemma_slot_in_part(
                hashes[sorted.starts@[b] + i],
                self.hasher.pilot_hash(p as u64),
            );
        }
    }

    /// **No collisions.** After a search that succeeds, two keys `k` and `l` of buckets of the
    /// order, of ranks `i` and `j`, have different slots under the pilots of their buckets.
    /// The slots are slots of the part, and they are in use.
    pub proof fn lemma_no_collisions(
        &self,
        hashes: Seq<Hx::H>,
        sorted: SortedBuckets,
        pilots: Seq<u8>,
        taken: Seq<bool>,
        i: int,
        k: int,
        j: int,
        l: int,
    )
        requires
            self.valid(),
            sorted.valid(hashes.len() as int),
            pilots.len() >= sorted.starts@.len() - 1,
            taken.len() >= self.s,
            self.displaced(hashes, sorted, pilots, taken).failure is None,
            0 <= i < sorted.order@.len(),
            0 <= j < sorted.order@.len(),
            sorted.starts@[sorted.order@[i].0 as int] <= k < sorted.starts@[sorted.order@[i].0 + 1],
            sorted.starts@[sorted.order@[j].0 as int] <= l < sorted.starts@[sorted.order@[j].0 + 1],
            k != l,
        ensures
            ({
                let m = self.displaced(hashes, sorted, pilots, taken);
                let x = self.hasher.slot(
                    hashes[k],
                    self.hasher.pilot_hash(m.pilots[sorted.order@[i].0 as int] as u64),
                );
                let y = self.hasher.slot(
                    hashes[l],
                    self.hasher.pilot_hash(m.pilots[sorted.order@[j].0 as int] as u64),
                );
                &&& x != y
                &&& 0 <= x < self.s
                &&& m.taken[x]
            }),
    {
        let t = self.table(hashes, sorted);
        let m = self.displaced(hashes, sorted, pilots, taken);
        let order = sorted.order@;
        let b = order[i];
        self.lemma_sound(hashes, sorted);
        self.lemma_table(hashes, sorted, t);
        laws::lemma_perfect(t, self.s as int, order, pilots, taken);
        assert(order.contains(order[i]) && order.contains(order[j]));
        self.lemma_keys_apart(hashes, sorted, m.pilots, order[i], k, order[j], l);
        let n = k - sorted.starts@[b.0 as int];
        let slots = laws::slots_of(t, m.pilots, b);
        assert(!order[i].absent());
        assert(slots == t[b.0 as int][m.pilots[b.0 as int] as int]);
        assert(t[b.0 as int][m.pilots[b.0 as int] as int][n] == self.hasher.slot(
            hashes[k],
            self.hasher.pilot_hash(m.pilots[b.0 as int] as u64),
        ));
        assert(m.taken[slots[n]]);
    }

    /// **Nothing else is marked.** After a search that succeeds, a slot that is in use and was
    /// not at first is the slot of some key `at.1`, of the bucket with rank `at.0`.
    pub proof fn lemma_marks(
        &self,
        hashes: Seq<Hx::H>,
        sorted: SortedBuckets,
        pilots: Seq<u8>,
        taken: Seq<bool>,
        x: int,
    ) -> (at: (int, int))
        requires
            self.valid(),
            sorted.valid(hashes.len() as int),
            pilots.len() >= sorted.starts@.len() - 1,
            taken.len() >= self.s,
            self.displaced(hashes, sorted, pilots, taken).failure is None,
            0 <= x < taken.len(),
            self.displaced(hashes, sorted, pilots, taken).taken[x],
            !taken[x],
        ensures
            ({
                let m = self.displaced(hashes, sorted, pilots, taken);
                let (i, k) = at;
                &&& 0 <= i < sorted.order@.len()
                &&& sorted.starts@[sorted.order@[i].0 as int] <= k < sorted.starts@[sorted.order@[i].0
                    + 1]
                &&& self.hasher.slot(
                    hashes[k],
                    self.hasher.pilot_hash(m.pilots[sorted.order@[i].0 as int] as u64),
                ) == x
            }),
    {
        let t = self.table(hashes, sorted);
        let m = self.displaced(hashes, sorted, pilots, taken);
        let order = sorted.order@;
        self.lemma_sound(hashes, sorted);
        self.lemma_table(hashes, sorted, t);
        laws::lemma_perfect(t, self.s as int, order, pilots, taken);
        let b = choose|b: BucketIdx|
            order.contains(b) && #[trigger] laws::slots_of(t, m.pilots, b).contains(x);
        let slots = laws::slots_of(t, m.pilots, b);
        let i = choose|i: int| 0 <= i < order.len() && order[i] == b;
        let n = choose|n: int| 0 <= n < slots.len() && slots[n] == x;
        assert(!order[i].absent());
        assert(slots == t[b.0 as int][m.pilots[b.0 as int] as int]);
        assert(t[b.0 as int][m.pilots[b.0 as int] as int][n] == x);
        (i, sorted.starts@[b.0 as int] + n)
    }

    /// **Other buckets.** Whether or not the search succeeds, the pilot of a bucket that is
    /// not in the order stays as it was, and neither buckets nor slots are added or lost.
    pub proof fn lemma_other_buckets(
        &self,
        hashes: Seq<Hx::H>,
        sorted: SortedBuckets,
        pilots: Seq<u8>,
        taken: Seq<bool>,
        e: int,
    )
        requires
            self.valid(),
            sorted.valid(hashes.len() as int),
            pilots.len() >= sorted.starts@.len() - 1,
            taken.len() >= self.s,
            0 <= e < pilots.len(),
            forall|i: int| 0 <= i < sorted.order@.len() ==> (#[trigger] sorted.order@[i]).0 != e,
        ensures
            self.displaced(hashes, sorted, pilots, taken).pilots[e] == pilots[e],
            self.displaced(hashes, sorted, pilots, taken).pilots.len() == pilots.len(),
            self.displaced(hashes, sorted, pilots, taken).taken.len() == taken.len(),
    {
        let t = self.table(hashes, sorted);
        self.lemma_sound(hashes, sorted);
        lemma_add_all_keeps(t, self.s as int, sorted.order@, pilots, taken, e);
        laws::lemma_add_all_len(t, self.s as int, sorted.order@, pilots, taken);
    }
}

} // verus!
