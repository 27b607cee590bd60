//! The search for pilots, as a mathematical function.
//!
//! A part is given by its *table*: `t[b][p]` lists the slots that the keys of bucket `b`
//! get under pilot `p`, one entry per key. Buckets are taken one by one. A bucket takes
//! the first pilot whose slots are all free. Where there is none it takes the pilot that
//! does the least damage and evicts the buckets it collides with, which then wait on a
//! stack for a place of their own.

use crate::bucket_idx::BucketIdx;
use vstd::prelude::*;

verus! {

/// The slots of each bucket under each pilot, one entry per key of the bucket.
pub type Table = Seq<Seq<Seq<int>>>;

/// The number of pilots: a pilot is stored in one byte.
pub const PILOTS: u64 = 256;

/// How many of the buckets that last evicted others are safe from being evicted.
pub const RECENT: usize = 4;

/// Every bucket has slots for every pilot, as many as it has keys, all of them among the
/// `s` slots of the part.
pub open spec fn table_ok(t: Table, s: int) -> bool {
    &&& forall|b: int| 0 <= b < t.len() ==> (#[trigger] t[b]).len() == PILOTS
    &&& forall|b: int, p: int|
        0 <= b < t.len() && 0 <= p < PILOTS ==> (#[trigger] t[b][p]).len() == t[b][0].len()
    &&& forall|b: int, p: int, i: int|
        0 <= b < t.len() && 0 <= p < PILOTS && 0 <= i < t[b][p].len() ==> 0 <= #[trigger] t[b][p][i]
            < s
}

/// The number of keys of bucket `b`.
pub open spec fn size(t: Table, b: int) -> int {
    t[b][0].len() as int
}

/// `row` with `v` written at each of the positions `at`.
pub open spec fn fill<T>(row: Seq<T>, at: Seq<int>, v: T) -> Seq<T> {
    Seq::new(
        row.len(),
        |i: int|
            if at.contains(i) {
                v
            } else {
                row[i]
            },
    )
}

/// A bucket can move to `slots`: they are free, and no two of its keys share one.
pub open spec fn fits(slots: Seq<int>, taken: Seq<bool>) -> bool {
    &&& slots.no_duplicates()
    &&& forall|i: int| 0 <= i < slots.len() ==> !#[trigger] taken[slots[i]]
}

/// `p` is the first of the pilots below `limit` under which a bucket fits, where the
/// bucket has slots `choices[q]` under pilot `q`.
pub open spec fn is_first_fit(choices: Seq<Seq<int>>, taken: Seq<bool>, limit: int, p: int) -> bool {
    &&& 0 <= p < limit
    &&& fits(choices[p], taken)
    &&& forall|q: int| 0 <= q < p ==> !fits(#[trigger] choices[q], taken)
}

/// The first pilot under which a bucket fits, if there is one.
pub open spec fn first_fit(choices: Seq<Seq<int>>, taken: Seq<bool>) -> Option<int> {
    if exists|p: int| is_first_fit(choices, taken, PILOTS as int, p) {
        Some(choose|p: int| is_first_fit(choices, taken, PILOTS as int, p))
    } else {
        None
    }
}

/// What it costs to take `slots`: for each of them that a bucket holds, the square of that
/// bucket's size.
pub open spec fn damage(t: Table, owner: Seq<BucketIdx>, slots: Seq<int>) -> int
    decreases slots.len(),
{
    if slots.len() == 0 {
        0
    } else {
        let o = owner[slots.last()];
        damage(t, owner, slots.drop_last()) + if o.absent() {
            0
        } else {
            size(t, o.at()) * size(t, o.at())
        }
    }
}

/// The buckets that hold any of `slots`, each once, in the order in which `slots` first
/// meets them.
pub open spec fn holders(owner: Seq<BucketIdx>, slots: Seq<int>) -> Seq<BucketIdx>
    decreases slots.len(),
{
    if slots.len() == 0 {
        Seq::empty()
    } else {
        let before = holders(owner, slots.drop_last());
        let o = owner[slots.last()];
        if o.absent() || before.contains(o) {
            before
        } else {
            before.push(o)
        }
    }
}

/// `b` is among the last few buckets of `history`.
pub open spec fn is_recent(history: Seq<BucketIdx>, b: BucketIdx) -> bool {
    exists|j: int|
        history.len() - RECENT <= j < history.len() && 0 <= j && #[trigger] history[j] == b
}

/// One of `slots` is held by a recent bucket.
pub open spec fn hits_recent(
    owner: Seq<BucketIdx>,
    slots: Seq<int>,
    history: Seq<BucketIdx>,
) -> bool {
    exists|i: int|
        0 <= i < slots.len() && !owner[#[trigger] slots[i]].absent() && is_recent(
            history,
            owner[slots[i]],
        )
}

/// `n` is a power of two.
pub open spec fn is_power_of_two(n: int) -> bool {
    exists|k: nat| n == #[trigger] vstd::arithmetic::power2::pow2(k)
}

/// A chain of `count` evictions in a part of `s` slots is given up. The length is looked
/// at when it is a power of two.
pub open spec fn too_long(count: int, s: int) -> bool {
    count > s && is_power_of_two(count) && count >= 10 * s
}

/// Why a bucket was given up.
#[derive(Clone, Copy, Debug, PartialEq, Eq, Structural)]
pub enum Failure {
    /// Too many buckets were evicted for it.
    TooManyDisplacements,
    /// This bucket, which fits nowhere, has no pilot that may evict: under each of them two
    /// of its keys share a slot, or it would evict one of the recent buckets.
    Indistinguishable(BucketIdx),
}

/// The best pilot among those seen so far, and whether to look no further.
pub struct Scan {
    pub best: Option<(int, int)>,
    pub done: bool,
}

/// The state while one new bucket finds its place.
pub struct Chain {
    /// The pilot of each bucket.
    pub pilots: Seq<u8>,
    /// The bucket that holds each slot.
    pub owner: Seq<BucketIdx>,
    /// Whether each slot is in use.
    pub taken: Seq<bool>,
    /// The buckets that wait for a place, the next one last.
    pub stack: Seq<BucketIdx>,
    /// The new bucket, and then each bucket that evicted others.
    pub history: Seq<BucketIdx>,
    /// How many buckets were evicted.
    pub count: int,
}

impl Chain {
    /// The pilot that is tried in place `k` when bucket `b` looks for one to evict with:
    /// all pilots in turn, starting after the one that the bucket had.
    pub open spec fn candidate(self, b: BucketIdx, k: int) -> int {
        (self.pilots[b.at()] + 1 + k) % (PILOTS as int)
    }

    /// Pilot `p` may evict: it spares the recent buckets, and tells the keys of bucket
    /// `b` apart.
    pub open spec fn may_evict(self, t: Table, b: BucketIdx, p: int) -> bool {
        &&& t[b.at()][p].no_duplicates()
        &&& !hits_recent(self.owner, t[b.at()][p], self.history)
    }

    /// What pilot `p` costs bucket `b`.
    pub open spec fn cost(self, t: Table, b: BucketIdx, p: int) -> int {
        damage(t, self.owner, t[b.at()][p])
    }

    /// The outcome of trying the first `k` candidates: the cheapest pilot, the earlier of
    /// two that cost the same. The scan ends with a pilot that costs exactly `goal`. A
    /// pilot that costs nothing is always taken over an earlier one.
    pub open spec fn scan(self, t: Table, goal: int, b: BucketIdx, k: int) -> Scan
        decreases k,
    {
        if k <= 0 {
            Scan { best: None, done: false }
        } else {
            let before = self.scan(t, goal, b, k - 1);
            let p = self.candidate(b, k - 1);
            let cost = self.cost(t, b, p);
            if !before.done && self.may_evict(t, b, p) && (match before.best {
                Some((least, _)) => cost < least || cost == 0,
                None => true,
            }) {
                Scan { best: Some((cost, p)), done: cost == goal }
            } else {
                before
            }
        }
    }

    /// The pilot that bucket `b` evicts with, if there is any.
    pub open spec fn evicting_pilot(self, t: Table, goal: int, b: BucketIdx) -> Option<int> {
        match self.scan(t, goal, b, PILOTS as int).best {
            Some((_, p)) => Some(p),
            None => None,
        }
    }

    /// The next bucket leaves the stack.
    pub open spec fn pop(self) -> Chain {
        Chain { stack: self.stack.drop_last(), ..self }
    }

    /// Bucket `b` moves to the free slots that pilot `p` gives it.
    pub open spec fn occupy(self, t: Table, b: BucketIdx, p: int) -> Chain {
        let slots = t[b.at()][p];
        Chain {
            pilots: self.pilots.update(b.at(), p as u8),
            owner: fill(self.owner, slots, b),
            taken: fill(self.taken, slots, true),
            ..self
        }
    }

    /// Bucket `b` moves to `slots`. The buckets that hold any of them lose all their slots
    /// and go on the stack.
    pub open spec fn take_over(self, b: BucketIdx, slots: Seq<int>) -> Chain {
        let out = holders(self.owner, slots);
        Chain {
            owner: Seq::new(
                self.owner.len(),
                |x: int|
                    if slots.contains(x) {
                        b
                    } else if out.contains(self.owner[x]) {
                        BucketIdx::nothing()
                    } else {
                        self.owner[x]
                    },
            ),
            taken: Seq::new(
                self.taken.len(),
                |x: int|
                    if slots.contains(x) {
                        true
                    } else if x < self.owner.len() && out.contains(self.owner[x]) {
                        false
                    } else {
                        self.taken[x]
                    },
            ),
            stack: self.stack + out,
            count: self.count + out.len(),
            ..self
        }
    }

    /// Bucket `b` takes over the slots that pilot `p` gives it.
    pub open spec fn evict(self, t: Table, b: BucketIdx, p: int) -> Chain {
        Chain {
            pilots: self.pilots.update(b.at(), p as u8),
            history: self.history.push(b),
            ..self.take_over(b, t[b.at()][p])
        }
    }

    /// Runs the chain until no bucket waits. The first component says why it was given up,
    /// if it was: it was too long, a bucket had no pilot to evict with, or the number of
    /// evictions might not fit in a `usize`.
    pub open spec fn settle(self, t: Table, s: int, goal: int) -> (Option<Failure>, Chain)
        decreases usize::MAX - self.count, self.stack.len(),
    {
        if self.stack.len() == 0 {
            (None, self)
        } else {
            let b = self.stack.last();
            let rest = self.pop();
            if too_long(self.count, s) {
                (Some(Failure::TooManyDisplacements), rest)
            } else {
                match first_fit(t[b.at()], rest.taken) {
                    Some(p) => rest.occupy(t, b, p).settle(t, s, goal),
                    None => match rest.evicting_pilot(t, goal, b) {
                        Some(p) => if self.count + t[b.at()][p].len() > usize::MAX {
                            (Some(Failure::TooManyDisplacements), rest)
                        } else {
                            proof {
                                lemma_holders_len(rest.owner, t[b.at()][p]);
                            }
                            rest.evict(t, b, p).settle(t, s, goal)
                        },
                        None => (Some(Failure::Indistinguishable(b)), rest),
                    },
                }
            }
        }
    }
}

/// The state between two new buckets.
pub struct Board {
    /// The pilot of each bucket.
    pub pilots: Seq<u8>,
    /// The bucket that holds each slot.
    pub owner: Seq<BucketIdx>,
    /// Whether each slot is in use.
    pub taken: Seq<bool>,
    /// How many buckets were evicted so far.
    pub total: int,
    /// Why a bucket was given up, once one was.
    pub failure: Option<Failure>,
}

impl Board {
    /// No bucket has a place yet.
    pub open spec fn start(s: int, pilots: Seq<u8>, taken: Seq<bool>) -> Board {
        Board {
            pilots,
            owner: Seq::new(s as nat, |x: int| BucketIdx::nothing()),
            taken,
            total: 0,
            failure: None,
        }
    }

    /// No bucket was given up.
    pub open spec fn ok(self) -> bool {
        self.failure is None
    }

    /// The chain that a new bucket starts.
    pub open spec fn chain(self, b: BucketIdx) -> Chain {
        Chain {
            pilots: self.pilots,
            owner: self.owner,
            taken: self.taken,
            stack: seq![b],
            history: seq![b],
            count: 0,
        }
    }

    /// Finds a place for bucket `b`. A bucket without keys gets pilot 0.
    pub open spec fn add(self, t: Table, s: int, b: BucketIdx) -> Board {
        if size(t, b.at()) == 0 {
            Board { pilots: self.pilots.update(b.at(), 0), ..self }
        } else {
            let (failure, c) = self.chain(b).settle(t, s, size(t, b.at()) * size(t, b.at()));
            Board {
                pilots: c.pilots,
                owner: c.owner,
                taken: c.taken,
                total: self.total + c.count,
                failure: if failure is None && self.total + c.count > usize::MAX {
                    Some(Failure::TooManyDisplacements)
                } else {
                    failure
                },
            }
        }
    }

    /// Finds places for the buckets of `order`, one after the other, up to the first that
    /// is given up.
    pub open spec fn add_all(self, t: Table, s: int, order: Seq<BucketIdx>) -> Board
        decreases order.len(),
    {
        if order.len() == 0 {
            self
        } else {
            let before = self.add_all(t, s, order.drop_last());
            if before.ok() {
                before.add(t, s, order.last())
            } else {
                before
            }
        }
    }
}

/// The first pilot under which a bucket fits is the only such pilot.
pub(crate) proof fn lemma_first_fit(choices: Seq<Seq<int>>, taken: Seq<bool>, p: int)
    requires
        is_first_fit(choices, taken, PILOTS as int, p),
    ensures
        first_fit(choices, taken) == Some(p),
{
    let q = choose|q: int| is_first_fit(choices, taken, PILOTS as int, q);
    assert(is_first_fit(choices, taken, PILOTS as int, q));
    assert(q == p) by {
        if q < p {
            assert(!fits(choices[q], taken));
        }
        if p < q {
            assert(!fits(choices[p], taken));
        }
    }
}

/// No more buckets hold `slots` than there are slots.
pub proof fn lemma_holders_len(owner: Seq<BucketIdx>, slots: Seq<int>)
    ensures
        holders(owner, slots).len() <= slots.len(),
    decreases slots.len(),
{
    if slots.len() > 0 {
        lemma_holders_len(owner, slots.drop_last());
    }
}

/// To fill one position more is to write to it.
pub(crate) proof fn lemma_fill_next<T>(row: Seq<T>, at: Seq<int>, i: int, v: T)
    requires
        0 <= i < at.len(),
        0 <= at[i] < row.len(),
    ensures
        fill(row, at.take(i + 1), v) == fill(row, at.take(i), v).update(at[i], v),
        forall|x: int| #[trigger]
            at.take(i + 1).contains(x) <==> at.take(i).contains(x) || x == at[i],
{
    let here = at.take(i);
    let next = at.take(i + 1);
    assert forall|x: int| #[trigger] next.contains(x) <==> here.contains(x) || x == at[i] by {
        if here.contains(x) {
            let k = choose|k: int| 0 <= k < i && here[k] == x;
            assert(next[k] == x);
        }
        assert(next[i] == at[i]);
        if next.contains(x) {
            let k = choose|k: int| 0 <= k < i + 1 && next[k] == x;
            if k < i {
                assert(here[k] == x);
            }
        }
    }
    assert(fill(row, next, v) =~= fill(row, here, v).update(at[i], v));
}

/// More slots do no less damage, and each slot that is held adds the square of its
/// holder's size.
pub(crate) proof fn lemma_damage_grows(t: Table, owner: Seq<BucketIdx>, slots: Seq<int>, i: int)
    requires
        0 <= i <= slots.len(),
    ensures
        0 <= damage(t, owner, slots.take(i)) <= damage(t, owner, slots),
    decreases slots.len(),
{
    if slots.len() > 0 {
        let o = owner[slots.last()];
        assert(0 <= size(t, o.at()) * size(t, o.at())) by (nonlinear_arith)
            requires
                0 <= size(t, o.at()),
        ;
        if i == slots.len() {
            assert(slots.take(i) =~= slots);
            lemma_damage_grows(t, owner, slots.drop_last(), i - 1);
            assert(slots.drop_last().take(i - 1) =~= slots.drop_last());
        } else {
            lemma_damage_grows(t, owner, slots.drop_last(), i);
            assert(slots.drop_last().take(i) =~= slots.take(i));
        }
    } else {
        assert(slots.take(i) =~= slots);
    }
}

/// The damage is bounded by the number of slots and the size of the largest bucket.
pub(crate) proof fn lemma_damage_bounded(t: Table, owner: Seq<BucketIdx>, slots: Seq<int>, most: int)
    requires
        0 <= most,
        forall|i: int|
            0 <= i < slots.len() && !owner[#[trigger] slots[i]].absent() ==> size(
                t,
                owner[slots[i]].at(),
            ) <= most,
    ensures
        0 <= damage(t, owner, slots) <= slots.len() * (most * most),
    decreases slots.len(),
{
    if slots.len() > 0 {
        let rest = slots.drop_last();
        assert forall|i: int| 0 <= i < rest.len() && !owner[#[trigger] rest[i]].absent() implies size(
            t,
            owner[rest[i]].at(),
        ) <= most by {
            assert(rest[i] == slots[i]);
        }
        lemma_damage_bounded(t, owner, rest, most);
        let o = owner[slots.last()];
        let n = size(t, o.at());
        assert(slots[slots.len() - 1] == slots.last());
        if !o.absent() {
            assert(0 <= n * n <= most * most) by (nonlinear_arith)
                requires
                    0 <= n <= most,
            ;
        }
        assert(0 <= most * most) by (nonlinear_arith)
            requires
                0 <= most,
        ;
        assert(slots.len() * (most * most) == rest.len() * (most * most) + most * most)
            by (nonlinear_arith)
            requires
                slots.len() == rest.len() + 1,
        ;
    }
}

/// Once a scan is done, it stays as it is.
pub(crate) proof fn lemma_scan_done(c: Chain, t: Table, goal: int, b: BucketIdx, j: int, k: int)
    requires
        0 <= j <= k,
        c.scan(t, goal, b, j).done,
    ensures
        c.scan(t, goal, b, k) == c.scan(t, goal, b, j),
    decreases k,
{
    if j < k {
        lemma_scan_done(c, t, goal, b, j, k - 1);
    }
}

/// Once a bucket was given up, the rest of the buckets are left alone.
pub(crate) proof fn lemma_add_all_stops(m: Board, t: Table, s: int, order: Seq<BucketIdx>, k: int)
    requires
        0 <= k <= order.len(),
        !m.add_all(t, s, order.take(k)).ok(),
    ensures
        m.add_all(t, s, order) == m.add_all(t, s, order.take(k)),
    decreases order.len(),
{
    if k < order.len() {
        assert(order.drop_last().take(k) =~= order.take(k));
        lemma_add_all_stops(m, t, s, order.drop_last(), k);
    } else {
        assert(order.take(k) =~= order);
    }
}

} // verus!
