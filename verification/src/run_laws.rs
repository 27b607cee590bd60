//! The search for pilots, step by step.
//!
//! A *run* lists the states that the search goes through. What may follow what is said here
//! of the states themselves: of their slots, their pilots and the buckets that wait.

use crate::bucket_idx::BucketIdx;
use crate::laws;
use crate::placement;
use crate::placement::{Board, Chain, Failure, Table};
use vstd::prelude::*;

verus! {

/// No two keys of a bucket share one of `slots`, and none of them is in use.
pub open spec fn is_free(slots: Seq<int>, taken: Seq<bool>) -> bool {
    &&& forall|i: int, j: int|
        0 <= i < j < slots.len() ==> #[trigger] slots[i] != #[trigger] slots[j]
    &&& forall|i: int| 0 <= i < slots.len() ==> !taken[#[trigger] slots[i]]
}

/// A bucket with slots `choices[p]` under pilot `p` fits somewhere.
pub open spec fn has_room(choices: Seq<Seq<int>>, taken: Seq<bool>) -> bool {
    exists|p: int| 0 <= p < 256 && is_free(#[trigger] choices[p], taken)
}

/// A bucket may move to `slots` by force: no two of its keys share one, and none of them is
/// held by one of the last four buckets of `history`.
pub open spec fn is_allowed(
    slots: Seq<int>,
    owner: Seq<BucketIdx>,
    history: Seq<BucketIdx>,
) -> bool {
    &&& forall|i: int, j: int|
        0 <= i < j < slots.len() ==> #[trigger] slots[i] != #[trigger] slots[j]
    &&& forall|i: int, j: int|
        0 <= i < slots.len() && 0 <= j < history.len() <= j + 4 ==> {
            let o = owner[#[trigger] slots[i]];
            o.0 == 0xffff_ffff || o != #[trigger] history[j]
        }
}

/// What it costs to take a slot from `o`: the square of its size, and nothing if it is no
/// bucket.
pub open spec fn weight(t: Table, o: BucketIdx) -> int {
    if o.0 == 0xffff_ffff {
        0
    } else {
        (t[o.0 as int][0].len() * t[o.0 as int][0].len()) as int
    }
}

/// The price of `slots`, the sum of what each of them costs.
pub open spec fn price(t: Table, owner: Seq<BucketIdx>, slots: Seq<int>) -> int {
    slots.map_values(|x: int| weight(t, owner[x])).fold_left(0, |a: int, n: int| a + n)
}

/// The slots of bucket `b` under the pilot that comes `k` places after the one behind its
/// own, in a circle of 256.
pub open spec fn turn(t: Table, c: Chain, b: BucketIdx, k: int) -> Seq<int> {
    t[b.0 as int][(c.pilots[b.0 as int] + 1 + k) % 256]
}

/// In turn `k` bucket `b` finds an allowed pilot that is cheaper than all allowed ones of
/// earlier turns, or that costs nothing.
pub open spec fn is_record(t: Table, c: Chain, b: BucketIdx, k: int) -> bool {
    &&& is_allowed(turn(t, c, b, k), c.owner, c.history)
    &&& price(t, c.owner, turn(t, c, b, k)) == 0 || forall|j: int|
        0 <= j < k && is_allowed(#[trigger] turn(t, c, b, j), c.owner, c.history) ==> price(
            t,
            c.owner,
            turn(t, c, b, k),
        ) < price(t, c.owner, turn(t, c, b, j))
}

/// Turn `k` is where bucket `b` stops: at the first record that costs exactly `goal`, or
/// else at the last record.
pub open spec fn is_choice(t: Table, goal: int, c: Chain, b: BucketIdx, k: int) -> bool {
    &&& 0 <= k < 256
    &&& is_record(t, c, b, k)
    &&& forall|j: int|
        0 <= j < k && #[trigger] is_record(t, c, b, j) ==> price(t, c.owner, turn(t, c, b, j))
            != goal
    &&& price(t, c.owner, turn(t, c, b, k)) == goal || forall|j: int|
        k < j < 256 ==> !#[trigger] is_record(t, c, b, j)
}

/// A chain of `count` evictions is not followed any further in a part of `s` slots: it is
/// longer than the part, ten times as long at least, and a power of two.
pub open spec fn is_overlong(count: int, s: int) -> bool {
    &&& count > s
    &&& count >= 10 * s
    &&& exists|k: nat| count == #[trigger] vstd::arithmetic::power2::pow2(k)
}

/// The next bucket that waits fits nowhere.
pub open spec fn is_stuck(t: Table, c: Chain) -> bool {
    forall|p: int|
        0 <= p < 256 ==> !is_free(#[trigger] t[c.stack[c.stack.len() - 1].0 as int][p], c.taken)
}

/// The next bucket that waits takes the first pilot under which it fits, `p`, and its slots.
/// Nothing else changes.
pub open spec fn settles(t: Table, c: Chain, d: Chain, p: int) -> bool {
    let last = c.stack.len() - 1;
    let b = c.stack[last];
    let slots = t[b.0 as int][p];
    &&& 0 <= p < 256
    &&& is_free(slots, c.taken)
    &&& forall|q: int| 0 <= q < p ==> !is_free(#[trigger] t[b.0 as int][q], c.taken)
    &&& d.pilots == c.pilots.update(b.0 as int, p as u8)
    &&& d.stack == c.stack.subrange(0, last)
    &&& d.history == c.history
    &&& d.count == c.count
    &&& d.owner.len() == c.owner.len()
    &&& forall|x: int|
        0 <= x < c.owner.len() ==> #[trigger] d.owner[x] == if slots.contains(x) {
            b
        } else {
            c.owner[x]
        }
    &&& d.taken.len() == c.taken.len()
    &&& forall|x: int|
        0 <= x < c.taken.len() ==> #[trigger] d.taken[x] == (c.taken[x] || slots.contains(x))
}

/// The next bucket that waits fits nowhere and takes the slots of turn `k` by force. The
/// buckets that hold any of them lose all their slots and wait too, in the order in which
/// the slots name them.
pub open spec fn evicts(t: Table, goal: int, c: Chain, d: Chain, k: int) -> bool {
    let last = c.stack.len() - 1;
    let b = c.stack[last];
    let slots = turn(t, c, b, k);
    let out = d.stack.subrange(last, d.stack.len() as int);
    &&& is_stuck(t, c)
    &&& is_choice(t, goal, c, b, k)
    &&& c.count + slots.len() <= usize::MAX
    &&& d.pilots == c.pilots.update(b.0 as int, ((c.pilots[b.0 as int] + 1 + k) % 256) as u8)
    &&& d.stack.len() >= last
    &&& d.stack.subrange(0, last) == c.stack.subrange(0, last)
    &&& out.no_duplicates()
    &&& forall|e: BucketIdx| #[trigger]
        out.contains(e) <==> e.0 != 0xffff_ffff && exists|i: int|
            0 <= i < slots.len() && c.owner[#[trigger] slots[i]] == e
    &&& forall|m: int, n: int|
        0 <= m < n < out.len() ==> comes_first(
            c.owner,
            slots,
            #[trigger] out[m],
            #[trigger] out[n],
        )
    &&& d.history == c.history.push(b)
    &&& d.count == c.count + out.len()
    &&& d.owner.len() == c.owner.len()
    &&& forall|x: int|
        0 <= x < c.owner.len() ==> #[trigger] d.owner[x] == if slots.contains(x) {
            b
        } else if out.contains(c.owner[x]) {
            BucketIdx(0xffff_ffff)
        } else {
            c.owner[x]
        }
    &&& d.taken.len() == c.taken.len()
    &&& forall|x: int|
        0 <= x < c.taken.len() ==> #[trigger] d.taken[x] == (slots.contains(x) || (c.taken[x] && !(x
            < c.owner.len() && out.contains(c.owner[x]))))
}

/// `slots` names bucket `a` as the holder of a slot before it first names bucket `b`.
pub open spec fn comes_first(
    owner: Seq<BucketIdx>,
    slots: Seq<int>,
    a: BucketIdx,
    b: BucketIdx,
) -> bool {
    exists|i: int|
        0 <= i < slots.len() && owner[#[trigger] slots[i]] == a && forall|j: int|
            0 <= j <= i ==> owner[#[trigger] slots[j]] != b
}

/// One step of a chain: a bucket waits, the chain is not overlong, and the bucket settles or
/// evicts.
pub open spec fn steps(t: Table, s: int, goal: int, c: Chain, d: Chain) -> bool {
    &&& c.stack.len() > 0
    &&& !is_overlong(c.count, s)
    &&& (exists|p: int| #[trigger] settles(t, c, d, p)) || (exists|k: int| #[trigger]
        evicts(t, goal, c, d, k))
}

/// The chain is given up at `c`, for this reason: it is overlong; or the next bucket fits
/// nowhere and the number of evictions might leave the range of a `usize`; or that bucket
/// fits nowhere and has no pilot that is allowed.
pub open spec fn gives_up(t: Table, s: int, goal: int, c: Chain, why: Failure) -> bool {
    let b = c.stack[c.stack.len() - 1];
    &&& c.stack.len() > 0
    &&& {
        ||| is_overlong(c.count, s) && why == Failure::TooManyDisplacements
        ||| {
            &&& !is_overlong(c.count, s)
            &&& is_stuck(t, c)
            &&& why == Failure::TooManyDisplacements
            &&& exists|k: int| #[trigger]
                is_choice(t, goal, c, b, k) && c.count + turn(t, c, b, k).len() > usize::MAX
        }
        ||| {
            &&& !is_overlong(c.count, s)
            &&& is_stuck(t, c)
            &&& why == Failure::Indistinguishable(b)
            &&& forall|p: int|
                0 <= p < 256 ==> !is_allowed(#[trigger] t[b.0 as int][p], c.owner, c.history)
        }
    }
}

/// `chain` runs from state `c`, one step after the other.
pub open spec fn is_chain(t: Table, s: int, goal: int, c: Chain, chain: Seq<Chain>) -> bool {
    &&& chain.len() > 0
    &&& chain[0] == c
    &&& forall|i: int, j: int|
        0 <= i && j == i + 1 && j < chain.len() ==> steps(
            t,
            s,
            goal,
            #[trigger] chain[i],
            #[trigger] chain[j],
        )
}

/// `chain` is what bucket `b` starts on board `m`: it waits alone, is the first of the
/// history, and nothing was evicted yet. It aims at the square of its own size.
pub open spec fn is_chain_of(t: Table, s: int, m: Board, b: BucketIdx, chain: Seq<Chain>) -> bool {
    is_chain(
        t,
        s,
        (t[b.0 as int][0].len() * t[b.0 as int][0].len()) as int,
        Chain {
            pilots: m.pilots,
            owner: m.owner,
            taken: m.taken,
            stack: seq![b],
            history: seq![b],
            count: 0,
        },
        chain,
    )
}

/// Board `n` is what `chain` leaves of board `m`. Where no bucket waits any more, bucket `b`
/// has found its place, unless the evictions exceed the range of a `usize`. Else the chain
/// was given up.
pub open spec fn is_result(
    t: Table,
    s: int,
    m: Board,
    b: BucketIdx,
    chain: Seq<Chain>,
    n: Board,
) -> bool {
    let end = chain[chain.len() - 1];
    &&& n.pilots == end.pilots
    &&& n.owner == end.owner
    &&& n.taken == end.taken
    &&& n.total == m.total + end.count
    &&& match n.failure {
        None => end.stack.len() == 0 && n.total <= usize::MAX,
        Some(why) => {
            ||| {
                &&& end.stack.len() == 0
                &&& n.total > usize::MAX
                &&& why == Failure::TooManyDisplacements
            }
            ||| gives_up(
                t,
                s,
                (t[b.0 as int][0].len() * t[b.0 as int][0].len()) as int,
                end,
                why,
            )
        },
    }
}

/// Board `n` follows board `m` when it is the turn of bucket `b`: once a bucket was given
/// up, nothing changes; a bucket without keys gets pilot 0; and any other starts a chain.
pub open spec fn follows(t: Table, s: int, m: Board, b: BucketIdx, n: Board) -> bool {
    if m.failure is Some {
        n == m
    } else if t[b.0 as int][0].len() == 0 {
        &&& n.pilots == m.pilots.update(b.0 as int, 0)
        &&& n.owner == m.owner
        &&& n.taken == m.taken
        &&& n.total == m.total
        &&& n.failure is None
    } else {
        exists|chain: Seq<Chain>| #[trigger]
            is_chain_of(t, s, m, b, chain) && is_result(t, s, m, b, chain, n)
    }
}

/// `run` lists the boards of a search over the buckets of `order`, from the first, where no
/// slot has a holder.
pub open spec fn is_run(
    t: Table,
    s: int,
    order: Seq<BucketIdx>,
    pilots: Seq<u8>,
    taken: Seq<bool>,
    run: Seq<Board>,
) -> bool {
    &&& run.len() == order.len() + 1
    &&& run[0].pilots == pilots
    &&& run[0].taken == taken
    &&& run[0].owner.len() == s
    &&& forall|x: int| 0 <= x < s ==> (#[trigger] run[0].owner[x]).0 == 0xffff_ffff
    &&& run[0].total == 0
    &&& run[0].failure is None
    &&& forall|i: int, j: int|
        0 <= i && j == i + 1 && j < run.len() ==> follows(
            t,
            s,
            #[trigger] run[i],
            order[i],
            #[trigger] run[j],
        )
}

/// What it means to fit.
pub proof fn lemma_is_free(slots: Seq<int>, taken: Seq<bool>)
    ensures
        placement::fits(slots, taken) <==> is_free(slots, taken),
{
    if is_free(slots, taken) {
        assert forall|i: int, j: int|
            0 <= i < slots.len() && 0 <= j < slots.len() && i != j implies slots[i] != slots[j] by {
            if i < j {
                assert(slots[i] != slots[j]);
            } else {
                assert(slots[j] != slots[i]);
            }
        }
    }
}

/// The first pilot under which a bucket fits.
pub proof fn lemma_first_free(choices: Seq<Seq<int>>, taken: Seq<bool>)
    ensures
        match placement::first_fit(choices, taken) {
            Some(p) => {
                &&& 0 <= p < 256
                &&& is_free(choices[p], taken)
                &&& forall|q: int| 0 <= q < p ==> !is_free(#[trigger] choices[q], taken)
            },
            None => forall|q: int| 0 <= q < 256 ==> !is_free(#[trigger] choices[q], taken),
        },
{
    match placement::first_fit(choices, taken) {
        Some(p) => {
            assert(placement::is_first_fit(choices, taken, 256, p));
            lemma_is_free(choices[p], taken);
            assert forall|q: int| 0 <= q < p implies !is_free(#[trigger] choices[q], taken) by {
                lemma_is_free(choices[q], taken);
            }
        },
        None => {
            assert forall|q: int| 0 <= q < 256 implies !is_free(#[trigger] choices[q], taken) by {
                lemma_is_free(choices[q], taken);
                if is_free(choices[q], taken) {
                    laws::lemma_some_fit(choices, taken, q);
                }
            }
        },
    }
}

/// The damage is the price.
pub proof fn lemma_price(t: Table, owner: Seq<BucketIdx>, slots: Seq<int>)
    ensures
        placement::damage(t, owner, slots) == price(t, owner, slots),
    decreases slots.len(),
{
    let weights = slots.map_values(|x: int| weight(t, owner[x]));
    if slots.len() > 0 {
        let rest = slots.drop_last();
        lemma_price(t, owner, rest);
        assert(weights.drop_last() =~= rest.map_values(|x: int| weight(t, owner[x])));
    }
}

/// The damage of one slot more: nothing if no bucket holds it, and else the square of the
/// number of its holder's keys.
pub proof fn lemma_damage_adds(t: Table, owner: Seq<BucketIdx>, slots: Seq<int>, x: int)
    ensures
        placement::damage(t, owner, Seq::empty()) == 0,
        placement::damage(t, owner, slots.push(x)) == placement::damage(t, owner, slots) + if owner[x].0
            == 0xffff_ffff {
            0
        } else {
            t[owner[x].0 as int][0].len() * t[owner[x].0 as int][0].len()
        },
{
    assert(slots.push(x).drop_last() =~= slots);
}

/// The holders of one slot more: its holder comes last, if it is a bucket and was not listed
/// yet.
pub proof fn lemma_holders_add(owner: Seq<BucketIdx>, slots: Seq<int>, x: int)
    ensures
        placement::holders(owner, Seq::empty()).len() == 0,
        ({
            let before = placement::holders(owner, slots);
            placement::holders(owner, slots.push(x)) == if owner[x].0 == 0xffff_ffff
                || before.contains(owner[x]) {
                before
            } else {
                before.push(owner[x])
            }
        }),
{
    assert(slots.push(x).drop_last() =~= slots);
}

/// When a chain is too long.
pub proof fn lemma_too_long(count: int, s: int)
    ensures
        placement::too_long(count, s) <==> count > s && count >= 10 * s && exists|k: nat|
            count == #[trigger] vstd::arithmetic::power2::pow2(k),
{
}

/// The pilots that may evict are those that are allowed.
pub proof fn lemma_is_allowed(t: Table, c: Chain, b: BucketIdx, p: int)
    ensures
        c.may_evict(t, b, p) <==> is_allowed(t[b.0 as int][p], c.owner, c.history),
{
    let slots = t[b.0 as int][p];
    if is_allowed(slots, c.owner, c.history) {
        assert(slots.no_duplicates());
        if placement::hits_recent(c.owner, slots, c.history) {
            let i = choose|i: int|
                0 <= i < slots.len() && !c.owner[#[trigger] slots[i]].absent()
                    && placement::is_recent(c.history, c.owner[slots[i]]);
            let j = choose|j: int|
                c.history.len() - placement::RECENT <= j < c.history.len() && 0 <= j
                    && #[trigger] c.history[j] == c.owner[slots[i]];
            assert(c.owner[slots[i]] != c.history[j]);
        }
    }
    if c.may_evict(t, b, p) {
        assert forall|i: int, j: int|
            0 <= i < slots.len() && 0 <= j < c.history.len() <= j + 4 implies {
            let o = c.owner[#[trigger] slots[i]];
            o.0 == 0xffff_ffff || o != #[trigger] c.history[j]
        } by {
            let o = c.owner[slots[i]];
            if o.0 != 0xffff_ffff && o == c.history[j] {
                assert(placement::is_recent(c.history, o));
                assert(placement::hits_recent(c.owner, slots, c.history));
            }
        }
    }
}

/// What a scan of the first `k` turns has found.
proof fn lemma_scan(c: Chain, t: Table, goal: int, b: BucketIdx, k: int) -> (best: int)
    requires
        0 <= k <= 256,
    ensures
        match c.scan(t, goal, b, k).best {
            None => {
                &&& !c.scan(t, goal, b, k).done
                &&& forall|j: int|
                    0 <= j < k ==> !is_allowed(#[trigger] turn(t, c, b, j), c.owner, c.history)
            },
            Some((cost, p)) => {
                &&& 0 <= best < k
                &&& p == (c.pilots[b.0 as int] + 1 + best) % 256
                &&& cost == price(t, c.owner, turn(t, c, b, best))
                &&& is_record(t, c, b, best)
                &&& forall|j: int|
                    0 <= j < best && #[trigger] is_record(t, c, b, j) ==> price(
                        t,
                        c.owner,
                        turn(t, c, b, j),
                    ) != goal
                &&& c.scan(t, goal, b, k).done <==> cost == goal
                &&& cost != goal ==> forall|j: int|
                    best < j < k ==> !#[trigger] is_record(t, c, b, j)
                &&& cost != goal ==> forall|j: int|
                    0 <= j < k && is_allowed(#[trigger] turn(t, c, b, j), c.owner, c.history)
                        ==> cost <= price(t, c.owner, turn(t, c, b, j))
            },
        },
    decreases k,
{
    if k <= 0 {
        0
    } else {
        let before = lemma_scan(c, t, goal, b, k - 1);
        let p = c.candidate(b, k - 1);
        let here = turn(t, c, b, k - 1);
        assert(here == t[b.at()][p]);
        lemma_is_allowed(t, c, b, p);
        lemma_price(t, c.owner, here);
        let old = c.scan(t, goal, b, k - 1);
        let new = c.scan(t, goal, b, k);
        let cost = price(t, c.owner, here);
        assert forall|j: int| 0 <= price(t, c.owner, #[trigger] turn(t, c, b, j)) by {
            lemma_price(t, c.owner, turn(t, c, b, j));
            placement::lemma_damage_grows(t, c.owner, turn(t, c, b, j), 0);
        }
        match old.best {
            None => {
                if is_allowed(here, c.owner, c.history) {
                    assert(is_record(t, c, b, k - 1));
                    assert forall|j: int| 0 <= j < k - 1 implies !#[trigger] is_record(
                        t,
                        c,
                        b,
                        j,
                    ) by {
                        assert(!is_allowed(turn(t, c, b, j), c.owner, c.history));
                    }
                    k - 1
                } else {
                    before
                }
            },
            Some((least, _)) => {
                if old.done {
                    before
                } else if is_allowed(here, c.owner, c.history) && (cost < least || cost == 0) {
                    assert(is_record(t, c, b, k - 1));
                    assert forall|j: int|
                        0 <= j < k - 1 && #[trigger] is_record(t, c, b, j) implies price(
                        t,
                        c.owner,
                        turn(t, c, b, j),
                    ) != goal by {
                        assert(j <= before);
                    }
                    k - 1
                } else {
                    if is_record(t, c, b, k - 1) {
                        assert(is_allowed(turn(t, c, b, before), c.owner, c.history));
                    }
                    assert(!is_record(t, c, b, k - 1));
                    before
                }
            },
        }
    }
}

/// The pilot that a bucket evicts with, and when there is none.
pub proof fn lemma_choice(c: Chain, t: Table, goal: int, b: BucketIdx) -> (k: int)
    ensures
        match c.evicting_pilot(t, goal, b) {
            Some(p) => is_choice(t, goal, c, b, k) && p == (c.pilots[b.0 as int] + 1 + k) % 256,
            None => forall|p: int|
                0 <= p < 256 ==> !is_allowed(#[trigger] t[b.0 as int][p], c.owner, c.history),
        },
{
    if c.evicting_pilot(t, goal, b) is None {
        laws::lemma_no_evicting_pilot(c, t, goal, b);
        assert forall|p: int| 0 <= p < 256 implies !is_allowed(
            #[trigger] t[b.0 as int][p],
            c.owner,
            c.history,
        ) by {
            lemma_is_allowed(t, c, b, p);
            assert(!c.may_evict(t, b, p));
        }
    }
    lemma_scan(c, t, goal, b, 256)
}

/// The holders of `slots` are listed in the order in which `slots` first names them.
pub proof fn lemma_holders_order(owner: Seq<BucketIdx>, slots: Seq<int>, m: int, n: int)
    requires
        0 <= m < n < placement::holders(owner, slots).len(),
    ensures
        comes_first(
            owner,
            slots,
            placement::holders(owner, slots)[m],
            placement::holders(owner, slots)[n],
        ),
    decreases slots.len(),
{
    let out = placement::holders(owner, slots);
    let rest = slots.drop_last();
    let before = placement::holders(owner, rest);
    let a = out[m];
    let b = out[n];
    let i = if n < before.len() {
        lemma_holders_order(owner, rest, m, n);
        choose|i: int|
            0 <= i < rest.len() && owner[#[trigger] rest[i]] == a && forall|j: int|
                0 <= j <= i ==> owner[#[trigger] rest[j]] != b
    } else {
        laws::lemma_holders(owner, rest);
        assert(before.contains(before[m]));
        choose|i: int| 0 <= i < rest.len() && owner[#[trigger] rest[i]] == a
    };
    assert(owner[slots[i]] == a) by {
        assert(rest[i] == slots[i]);
    }
    assert forall|j: int| 0 <= j <= i implies owner[#[trigger] slots[j]] != b by {
        assert(rest[j] == slots[j]);
        if n >= before.len() && owner[rest[j]] == b {
            laws::lemma_holders(owner, slots);
            assert(out.contains(b));
            assert(before.contains(b));
        }
    }
}

/// The next bucket that waits settles.
proof fn lemma_settles(t: Table, c: Chain, p: int)
    requires
        c.stack.len() > 0,
        placement::first_fit(t[c.stack.last().at()], c.taken) == Some(p),
    ensures
        settles(t, c, c.pop().occupy(t, c.stack.last(), p), p),
{
    lemma_first_free(t[c.stack.last().at()], c.taken);
    assert(c.stack.drop_last() =~= c.stack.subrange(0, c.stack.len() - 1));
}

/// The next bucket that waits evicts.
proof fn lemma_evicts(t: Table, goal: int, c: Chain, p: int) -> (k: int)
    requires
        c.stack.len() > 0,
        placement::first_fit(t[c.stack.last().at()], c.taken) is None,
        c.pop().evicting_pilot(t, goal, c.stack.last()) == Some(p),
        c.count + t[c.stack.last().at()][p].len() <= usize::MAX,
    ensures
        evicts(t, goal, c, c.pop().evict(t, c.stack.last(), p), k),
{
    let b = c.stack.last();
    let last = c.stack.len() - 1;
    let rest = c.pop();
    let d = rest.evict(t, b, p);
    let slots = t[b.at()][p];
    let held = placement::holders(rest.owner, slots);
    lemma_first_free(t[b.at()], c.taken);
    let k = lemma_choice(rest, t, goal, b);
    lemma_same_choice(t, goal, rest, c, b, k);
    assert(d.stack == rest.stack + held);
    let out = d.stack.subrange(last, d.stack.len() as int);
    assert(out =~= held);
    assert(d.stack.subrange(0, last) =~= c.stack.subrange(0, last));
    laws::lemma_holders(rest.owner, slots);
    assert forall|m: int, n: int| 0 <= m < n < out.len() implies comes_first(
        c.owner,
        slots,
        #[trigger] out[m],
        #[trigger] out[n],
    ) by {
        lemma_holders_order(rest.owner, slots, m, n);
    }
    k
}

/// Where a bucket stops does not depend on which other buckets wait.
proof fn lemma_same_choice(t: Table, goal: int, c: Chain, d: Chain, b: BucketIdx, k: int)
    requires
        is_choice(t, goal, c, b, k),
        c.pilots == d.pilots,
        c.owner == d.owner,
        c.history == d.history,
    ensures
        is_choice(t, goal, d, b, k),
        turn(t, c, b, k) == turn(t, d, b, k),
{
    assert forall|j: int| #[trigger] turn(t, c, b, j) == turn(t, d, b, j) by {}
    assert forall|j: int| #[trigger] is_record(t, d, b, j) == is_record(t, c, b, j) by {
        lemma_same_record(t, c, d, b, j);
    }
}

proof fn lemma_same_record(t: Table, c: Chain, d: Chain, b: BucketIdx, k: int)
    requires
        c.pilots == d.pilots,
        c.owner == d.owner,
        c.history == d.history,
    ensures
        is_record(t, c, b, k) == is_record(t, d, b, k),
{
    assert forall|j: int|
        #![trigger turn(t, c, b, j)]
        #![trigger turn(t, d, b, j)]
        turn(t, c, b, j) == turn(t, d, b, j) by {}
}

/// The steps of a chain, and how it ends.
pub proof fn lemma_chain(t: Table, s: int, goal: int, c: Chain) -> (chain: Seq<Chain>)
    ensures
        is_chain(t, s, goal, c, chain),
        ({
            let (failure, d) = c.settle(t, s, goal);
            let end = chain[chain.len() - 1];
            &&& d.pilots == end.pilots
            &&& d.owner == end.owner
            &&& d.taken == end.taken
            &&& d.count == end.count
            &&& match failure {
                None => end.stack.len() == 0,
                Some(why) => gives_up(t, s, goal, end, why),
            }
        }),
    decreases usize::MAX - c.count, c.stack.len(),
{
    let here = seq![c];
    if c.stack.len() == 0 {
        here
    } else {
        let b = c.stack.last();
        let rest = c.pop();
        lemma_first_free(t[b.at()], c.taken);
        assert(placement::too_long(c.count, s) == is_overlong(c.count, s));
        if placement::too_long(c.count, s) {
            here
        } else {
            match placement::first_fit(t[b.at()], rest.taken) {
                Some(p) => {
                    let d = rest.occupy(t, b, p);
                    lemma_settles(t, c, p);
                    let next = lemma_chain(t, s, goal, d);
                    lemma_chain_longer(t, s, goal, c, d, next);
                    here + next
                },
                None => {
                    let k = lemma_choice(rest, t, goal, b);
                    match rest.evicting_pilot(t, goal, b) {
                        Some(p) => {
                            if c.count + t[b.at()][p].len() > usize::MAX {
                                lemma_same_choice(t, goal, rest, c, b, k);
                                here
                            } else {
                                let d = rest.evict(t, b, p);
                                placement::lemma_holders_len(rest.owner, t[b.at()][p]);
                                let k = lemma_evicts(t, goal, c, p);
                                let next = lemma_chain(t, s, goal, d);
                                lemma_chain_longer(t, s, goal, c, d, next);
                                here + next
                            }
                        },
                        None => here,
                    }
                },
            }
        }
    }
}

proof fn lemma_chain_longer(t: Table, s: int, goal: int, c: Chain, d: Chain, chain: Seq<Chain>)
    requires
        steps(t, s, goal, c, d),
        is_chain(t, s, goal, d, chain),
    ensures
        is_chain(t, s, goal, c, seq![c] + chain),
{
    let longer = seq![c] + chain;
    assert forall|i: int, j: int| 0 <= i && j == i + 1 && j < longer.len() implies steps(
        t,
        s,
        goal,
        #[trigger] longer[i],
        #[trigger] longer[j],
    ) by {
        if i > 0 {
            assert(longer[i] == chain[i - 1]);
            assert(longer[j] == chain[j - 1]);
        } else {
            assert(longer[j] == chain[0]);
        }
    }
}

/// The board after one bucket more follows the one before.
proof fn lemma_follows(t: Table, s: int, m: Board, b: BucketIdx)
    requires
        m.failure is None,
    ensures
        follows(t, s, m, b, m.add(t, s, b)),
{
    if t[b.at()][0].len() > 0 {
        let goal = (t[b.at()][0].len() * t[b.at()][0].len()) as int;
        let n = m.add(t, s, b);
        let chain = lemma_chain(t, s, goal, m.chain(b));
        assert(is_chain_of(t, s, m, b, chain));
        assert(is_result(t, s, m, b, chain, n));
    }
}

/// **The search is a run.** The boards after each prefix of the buckets make a run.
pub proof fn lemma_run(
    t: Table,
    s: int,
    order: Seq<BucketIdx>,
    pilots: Seq<u8>,
    taken: Seq<bool>,
) -> (run: Seq<Board>)
    requires
        0 <= s,
    ensures
        is_run(t, s, order, pilots, taken, run),
        run[order.len() as int] == Board::start(s, pilots, taken).add_all(t, s, order),
{
    let start = Board::start(s, pilots, taken);
    let run = Seq::new(order.len() + 1, |j: int| start.add_all(t, s, order.take(j)));
    assert(order.take(0) =~= Seq::empty());
    assert(order.take(order.len() as int) =~= order);
    assert forall|i: int, j: int| 0 <= i && j == i + 1 && j < run.len() implies follows(
        t,
        s,
        #[trigger] run[i],
        order[i],
        #[trigger] run[j],
    ) by {
        assert(order.take(j).drop_last() =~= order.take(i));
        assert(order.take(j).last() == order[i]);
        if run[i].failure is None {
            lemma_follows(t, s, run[i], order[i]);
        }
    }
    run
}

} // verus!
