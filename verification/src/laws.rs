//! What the search for pilots guarantees.

use crate::bucket_idx::BucketIdx;
use crate::placement;
use crate::placement::{Board, Chain, Failure, Table, PILOTS};
use vstd::prelude::*;

verus! {

/// The slots that the keys of bucket `b` have under the bucket's pilot.
pub open spec fn slots_of(t: Table, pilots: Seq<u8>, b: BucketIdx) -> Seq<int> {
    t[b.at()][pilots[b.at()] as int]
}

/// Bucket `b` holds its slots, and no two of its keys share one.
pub open spec fn at_home(t: Table, pilots: Seq<u8>, owner: Seq<BucketIdx>, b: BucketIdx) -> bool {
    &&& slots_of(t, pilots, b).no_duplicates()
    &&& forall|i: int|
        0 <= i < slots_of(t, pilots, b).len() ==> owner[#[trigger] slots_of(t, pilots, b)[i]] == b
}

/// No two keys of the buckets in `order` share a slot: the pilots make a perfect hash
/// function of the part.
pub open spec fn is_perfect(t: Table, pilots: Seq<u8>, order: Seq<BucketIdx>) -> bool {
    &&& forall|b: BucketIdx| #[trigger]
        order.contains(b) ==> slots_of(t, pilots, b).no_duplicates()
    &&& forall|b: BucketIdx, c: BucketIdx, i: int, j: int|
        order.contains(b) && order.contains(c) && b != c && 0 <= i < slots_of(t, pilots, b).len()
            && 0 <= j < slots_of(t, pilots, c).len() ==> #[trigger] slots_of(t, pilots, b)[i]
            != #[trigger] slots_of(t, pilots, c)[j]
}

/// The slots in use are those of the buckets in `order`, and possibly some that were in
/// use at first.
pub open spec fn marks_slots(
    t: Table,
    pilots: Seq<u8>,
    order: Seq<BucketIdx>,
    before: Seq<bool>,
    after: Seq<bool>,
) -> bool {
    &&& after.len() == before.len()
    &&& forall|b: BucketIdx, i: int|
        order.contains(b) && 0 <= i < slots_of(t, pilots, b).len()
            ==> after[#[trigger] slots_of(t, pilots, b)[i]]
    &&& forall|x: int|
        0 <= x < after.len() && #[trigger] after[x] && !before[x] ==> exists|b: BucketIdx|
            order.contains(b) && #[trigger] slots_of(t, pilots, b).contains(x)
}

/// `order` names buckets of the table, none twice.
pub open spec fn order_ok(t: Table, order: Seq<BucketIdx>) -> bool {
    &&& order.no_duplicates()
    &&& forall|i: int| 0 <= i < order.len() ==> !(#[trigger] order[i]).absent() && order[i].at() < t.len()
}

/// The first buckets of an order are an order.
pub(crate) proof fn lemma_order_prefix(t: Table, order: Seq<BucketIdx>, k: int)
    requires
        order_ok(t, order),
        0 <= k <= order.len(),
    ensures
        order_ok(t, order.take(k)),
        k + 1 == order.len() ==> order_ok(t, order.drop_last()),
{
    let prefix = order.take(k);
    assert forall|i: int| 0 <= i < prefix.len() implies !(#[trigger] prefix[i]).absent()
        && prefix[i].at() < t.len() by {
        assert(prefix[i] == order[i]);
    }
    if k + 1 == order.len() {
        assert(order.drop_last() =~= prefix);
    }
}

/// What holds between two steps of the search, where `order` are the buckets that were
/// begun, `waiting` those among them without a place, and `before` the slots in use at
/// first.
pub open spec fn consistent(
    t: Table,
    s: int,
    order: Seq<BucketIdx>,
    waiting: Seq<BucketIdx>,
    before: Seq<bool>,
    pilots: Seq<u8>,
    owner: Seq<BucketIdx>,
    taken: Seq<bool>,
) -> bool {
    &&& pilots.len() >= t.len()
    &&& owner.len() == s
    &&& taken.len() == before.len() >= s
    &&& waiting.no_duplicates()
    &&& forall|i: int| 0 <= i < waiting.len() ==> order.contains(#[trigger] waiting[i])
    &&& forall|x: int|
        0 <= x < s && !(#[trigger] owner[x]).absent() ==> {
            &&& order.contains(owner[x])
            &&& !waiting.contains(owner[x])
            &&& slots_of(t, pilots, owner[x]).contains(x)
            &&& taken[x]
        }
    &&& forall|b: BucketIdx| #[trigger]
        order.contains(b) && !waiting.contains(b) ==> at_home(t, pilots, owner, b)
    &&& forall|x: int|
        0 <= x < taken.len() && #[trigger] taken[x] && !before[x] ==> x < s && !owner[x].absent()
}

impl Chain {
    /// What holds while a chain runs.
    pub open spec fn holds(
        self,
        t: Table,
        s: int,
        order: Seq<BucketIdx>,
        before: Seq<bool>,
    ) -> bool {
        consistent(t, s, order, self.stack, before, self.pilots, self.owner, self.taken)
    }
}

/// The holders of `slots` are the buckets that hold one of them, and each is listed once.
pub proof fn lemma_holders(owner: Seq<BucketIdx>, slots: Seq<int>)
    ensures
        placement::holders(owner, slots).no_duplicates(),
        forall|c: BucketIdx| #[trigger]
            placement::holders(owner, slots).contains(c) <==> !c.absent() && exists|i: int|
                0 <= i < slots.len() && owner[#[trigger] slots[i]] == c,
    decreases slots.len(),
{
    let out = placement::holders(owner, slots);
    if slots.len() > 0 {
        let rest = slots.drop_last();
        lemma_holders(owner, rest);
        let o = owner[slots.last()];
        let before = placement::holders(owner, rest);
        assert forall|c: BucketIdx| #[trigger] out.contains(c) <==> !c.absent() && exists|i: int|
            0 <= i < slots.len() && owner[#[trigger] slots[i]] == c by {
            if out.contains(c) {
                if before.contains(c) {
                    let i = choose|i: int| 0 <= i < rest.len() && owner[#[trigger] rest[i]] == c;
                    assert(owner[slots[i]] == c);
                } else {
                    assert(out == before.push(o));
                    let k = choose|k: int| 0 <= k < out.len() && out[k] == c;
                    assert(k == before.len());
                    assert(owner[slots[slots.len() - 1]] == c);
                }
            }
            if !c.absent() && exists|i: int| 0 <= i < slots.len() && owner[#[trigger] slots[i]] == c {
                let i = choose|i: int| 0 <= i < slots.len() && owner[#[trigger] slots[i]] == c;
                if i < rest.len() {
                    assert(owner[rest[i]] == c);
                    assert(before.contains(c));
                    let k = choose|k: int| 0 <= k < before.len() && before[k] == c;
                    assert(out[k] == c);
                } else {
                    assert(c == o);
                    if !before.contains(o) {
                        assert(out[before.len() as int] == o);
                    }
                }
            }
        }
    }
}

/// To move into free slots keeps the search consistent.
pub proof fn lemma_occupy(
    t: Table,
    s: int,
    order: Seq<BucketIdx>,
    before: Seq<bool>,
    c: Chain,
    p: int,
)
    requires
        placement::table_ok(t, s),
        order_ok(t, order),
        c.holds(t, s, order, before),
        c.stack.len() > 0,
        0 <= p < PILOTS,
        placement::fits(t[c.stack.last().at()][p], c.taken),
    ensures
        c.pop().occupy(t, c.stack.last(), p).holds(t, s, order, before),
{
    let b = c.stack.last();
    let d = c.pop().occupy(t, b, p);
    let slots = t[b.at()][p];
    assert(order.contains(c.stack[c.stack.len() - 1]));
    assert(d.pilots[b.at()] as int == p);
    assert(slots_of(t, d.pilots, b) == slots);
    assert forall|x: BucketIdx| d.stack.contains(x) implies c.stack.contains(x) && x != b by {
        let k = choose|k: int| 0 <= k < d.stack.len() && d.stack[k] == x;
        assert(c.stack[k] == x);
    }
    assert forall|x: BucketIdx| c.stack.contains(x) && x != b implies d.stack.contains(x) by {
        let k = choose|k: int| 0 <= k < c.stack.len() && c.stack[k] == x;
        assert(d.stack[k] == x);
    }
    assert forall|i: int| 0 <= i < d.stack.len() implies order.contains(#[trigger] d.stack[i]) by {
        assert(d.stack[i] == c.stack[i]);
    }
    assert forall|x: int| 0 <= x < s && !(#[trigger] d.owner[x]).absent() implies {
        &&& order.contains(d.owner[x])
        &&& !d.stack.contains(d.owner[x])
        &&& slots_of(t, d.pilots, d.owner[x]).contains(x)
        &&& d.taken[x]
    } by {
        if slots.contains(x) {
        } else {
            assert(d.owner[x] == c.owner[x]);
            assert(c.owner[x] != b);
            assert(order.contains(c.owner[x]));
        }
    }
    assert forall|e: BucketIdx| #[trigger]
        order.contains(e) && !d.stack.contains(e) implies at_home(t, d.pilots, d.owner, e) by {
        if e == b {
            assert forall|i: int| 0 <= i < slots_of(t, d.pilots, e).len() implies d.owner[#[trigger] slots_of(
                t,
                d.pilots,
                e,
            )[i]] == e by {
                assert(slots.contains(slots[i]));
            }
        } else {
            assert(at_home(t, c.pilots, c.owner, e));
            assert(slots_of(t, d.pilots, e) == slots_of(t, c.pilots, e));
            assert forall|i: int| 0 <= i < slots_of(t, d.pilots, e).len() implies d.owner[#[trigger] slots_of(
                t,
                d.pilots,
                e,
            )[i]] == e by {
                let x = slots_of(t, c.pilots, e)[i];
                assert(c.owner[x] == e);
                assert(c.taken[x]);
                if slots.contains(x) {
                    let k = choose|k: int| 0 <= k < slots.len() && slots[k] == x;
                    assert(!c.taken[slots[k]]);
                }
            }
        }
    }
    assert forall|x: int| 0 <= x < d.taken.len() && #[trigger] d.taken[x] && !before[x] implies x < s
        && !d.owner[x].absent() by {
        if slots.contains(x) {
            let k = choose|k: int| 0 <= k < slots.len() && slots[k] == x;
            assert(0 <= t[b.at()][p][k] < s);
        } else {
            assert(c.taken[x]);
        }
    }
}

/// To evict keeps the search consistent.
pub proof fn lemma_evict(
    t: Table,
    s: int,
    order: Seq<BucketIdx>,
    before: Seq<bool>,
    c: Chain,
    p: int,
)
    requires
        placement::table_ok(t, s),
        order_ok(t, order),
        c.holds(t, s, order, before),
        c.stack.len() > 0,
        0 <= p < PILOTS,
        t[c.stack.last().at()][p].no_duplicates(),
    ensures
        c.pop().evict(t, c.stack.last(), p).holds(t, s, order, before),
{
    let b = c.stack.last();
    let d = c.pop().evict(t, b, p);
    let slots = t[b.at()][p];
    let rest = c.stack.drop_last();
    let out = placement::holders(c.owner, slots);
    lemma_holders(c.owner, slots);
    assert(c.stack.contains(b)) by {
        assert(c.stack[c.stack.len() - 1] == b);
    }
    assert(order.contains(b)) by {
        assert(order.contains(c.stack[c.stack.len() - 1]));
    }
    assert(slots_of(t, d.pilots, b) == slots);
    assert forall|i: int| 0 <= i < slots.len() implies 0 <= #[trigger] slots[i] < s by {
        assert(0 <= t[b.at()][p][i] < s);
    }
    assert forall|e: BucketIdx| #[trigger] out.contains(e) implies order.contains(e)
        && !c.stack.contains(e) by {
        let i = choose|i: int| 0 <= i < slots.len() && c.owner[#[trigger] slots[i]] == e;
        assert(!c.owner[slots[i]].absent());
    }
    assert(d.stack == rest + out);
    assert forall|e: BucketIdx| #[trigger] d.stack.contains(e) implies rest.contains(e)
        || out.contains(e) by {
        let k = choose|k: int| 0 <= k < d.stack.len() && d.stack[k] == e;
        if k < rest.len() {
            assert(rest[k] == e);
        } else {
            assert(out[k - rest.len()] == e);
        }
    }
    assert forall|e: BucketIdx| (rest.contains(e) || out.contains(e)) implies d.stack.contains(
        e,
    ) by {
        if rest.contains(e) {
            let k = choose|k: int| 0 <= k < rest.len() && rest[k] == e;
            assert(d.stack[k] == e);
        } else {
            let k = choose|k: int| 0 <= k < out.len() && out[k] == e;
            assert(d.stack[k + rest.len()] == e);
        }
    }
    assert forall|e: BucketIdx| #[trigger] rest.contains(e) <==> c.stack.contains(e) && e != b by {
        if rest.contains(e) {
            let k = choose|k: int| 0 <= k < rest.len() && rest[k] == e;
            assert(c.stack[k] == e);
        }
        if c.stack.contains(e) && e != b {
            let k = choose|k: int| 0 <= k < c.stack.len() && c.stack[k] == e;
            assert(rest[k] == e);
        }
    }
    assert forall|i: int, j: int| 0 <= i < j < d.stack.len() implies d.stack[i] != d.stack[j] by {
        if j < rest.len() {
            assert(c.stack[i] != c.stack[j]);
        } else if i >= rest.len() {
            assert(out[i - rest.len()] != out[j - rest.len()]);
        } else {
            assert(rest.contains(rest[i]));
            assert(out.contains(out[j - rest.len()]));
        }
    }
    assert forall|i: int| 0 <= i < d.stack.len() implies order.contains(#[trigger] d.stack[i]) by {
        if i < rest.len() {
            assert(d.stack[i] == c.stack[i]);
        } else {
            assert(out.contains(out[i - rest.len()]));
        }
    }
    assert forall|x: int| 0 <= x < s && !(#[trigger] d.owner[x]).absent() implies {
        &&& order.contains(d.owner[x])
        &&& !d.stack.contains(d.owner[x])
        &&& slots_of(t, d.pilots, d.owner[x]).contains(x)
        &&& d.taken[x]
    } by {
        if slots.contains(x) {
            assert(!out.contains(b));
        } else {
            assert(d.owner[x] == c.owner[x]);
            assert(order.contains(c.owner[x]));
            assert(c.owner[x] != b);
        }
    }
    assert forall|e: BucketIdx| #[trigger]
        order.contains(e) && !d.stack.contains(e) implies at_home(t, d.pilots, d.owner, e) by {
        if e == b {
            assert forall|i: int| 0 <= i < slots_of(t, d.pilots, e).len() implies d.owner[#[trigger] slots_of(
                t,
                d.pilots,
                e,
            )[i]] == e by {
                assert(slots.contains(slots[i]));
            }
        } else {
            assert(rest.contains(e) || out.contains(e) ==> d.stack.contains(e));
            assert(!c.stack.contains(e));
            assert(at_home(t, c.pilots, c.owner, e));
            assert(slots_of(t, d.pilots, e) == slots_of(t, c.pilots, e));
            assert forall|i: int| 0 <= i < slots_of(t, d.pilots, e).len() implies d.owner[#[trigger] slots_of(
                t,
                d.pilots,
                e,
            )[i]] == e by {
                let x = slots_of(t, c.pilots, e)[i];
                assert(c.owner[x] == e);
                if slots.contains(x) {
                    let k = choose|k: int| 0 <= k < slots.len() && slots[k] == x;
                    assert(c.owner[slots[k]] == e);
                    assert(out.contains(e));
                }
            }
        }
    }
    assert forall|x: int| 0 <= x < d.taken.len() && #[trigger] d.taken[x] && !before[x] implies x < s
        && !d.owner[x].absent() by {
        if slots.contains(x) {
            let k = choose|k: int| 0 <= k < slots.len() && slots[k] == x;
            assert(0 <= slots[k] < s);
        } else {
            assert(c.taken[x]);
        }
    }
}

/// How to take over one slot more: if a bucket still holds it, that bucket is cleared from
/// all its slots and put on the stack, and then the slot changes hands.
pub(crate) proof fn lemma_take_over_next(
    t: Table,
    s: int,
    order: Seq<BucketIdx>,
    before: Seq<bool>,
    c: Chain,
    slots: Seq<int>,
    i: int,
)
    requires
        placement::table_ok(t, s),
        order_ok(t, order),
        c.holds(t, s, order, before),
        c.stack.len() > 0,
        slots.no_duplicates(),
        forall|k: int| 0 <= k < slots.len() ==> 0 <= #[trigger] slots[k] < s,
        0 <= i < slots.len(),
    ensures
        ({
            let b = c.stack.last();
            let d = c.pop().take_over(b, slots.take(i));
            let e = c.pop().take_over(b, slots.take(i + 1));
            let x = slots[i];
            let o = d.owner[x];
            if o.absent() {
                &&& e.owner == d.owner.update(x, b)
                &&& e.taken == d.taken.update(x, true)
                &&& e.stack == d.stack
                &&& e.count == d.count
            } else {
                let old = slots_of(t, c.pilots, o);
                &&& o != b
                &&& order.contains(o)
                &&& e.owner == placement::fill(d.owner, old, BucketIdx::nothing()).update(x, b)
                &&& e.taken == placement::fill(d.taken, old, false).update(x, true)
                &&& e.stack == d.stack.push(o)
                &&& e.count == d.count + 1
            }
        }),
{
    let b = c.stack.last();
    let rest = c.pop();
    let here = slots.take(i);
    let next = slots.take(i + 1);
    let d = rest.take_over(b, here);
    let e = rest.take_over(b, next);
    let x = slots[i];
    let o = d.owner[x];
    let out = placement::holders(c.owner, here);
    assert(next.drop_last() =~= here);
    assert(next.last() == x);
    placement::lemma_fill_next(c.taken, slots, i, true);
    lemma_holders(c.owner, here);
    assert(!here.contains(x)) by {
        if here.contains(x) {
            let k = choose|k: int| 0 <= k < i && here[k] == x;
            assert(slots[k] == slots[i]);
        }
    }
    if o.absent() {
        assert(placement::holders(c.owner, next) == out);
        assert(e.owner =~= d.owner.update(x, b));
        assert(e.taken =~= d.taken.update(x, true));
    } else {
        assert(o == c.owner[x]);
        assert(!c.owner[x].absent());
        assert(c.stack[c.stack.len() - 1] == b);
        assert(c.stack.contains(b));
        let old = slots_of(t, c.pilots, o);
        let more = placement::holders(c.owner, next);
        assert(more == out.push(o));
        assert forall|z: BucketIdx| #[trigger] more.contains(z) <==> out.contains(z) || z == o by {
            if out.contains(z) {
                let k = choose|k: int| 0 <= k < out.len() && out[k] == z;
                assert(more[k] == z);
            }
            assert(more[out.len() as int] == o);
            if more.contains(z) {
                let k = choose|k: int| 0 <= k < more.len() && more[k] == z;
                if k < out.len() {
                    assert(out[k] == z);
                }
            }
        }
        assert(at_home(t, c.pilots, c.owner, o));
        assert forall|y: int| 0 <= y < s implies (#[trigger] old.contains(y) <==> c.owner[y]
            == o) by {
            if old.contains(y) {
                let k = choose|k: int| 0 <= k < old.len() && old[k] == y;
                assert(c.owner[slots_of(t, c.pilots, o)[k]] == o);
            }
            if c.owner[y] == o {
                assert(!c.owner[y].absent());
            }
        }
        assert forall|y: int| #[trigger] old.contains(y) implies 0 <= y < s by {
            let k = choose|k: int| 0 <= k < old.len() && old[k] == y;
            let j = choose|j: int| 0 <= j < order.len() && order[j] == o;
            assert(!order[j].absent());
            assert(0 <= t[o.at()][c.pilots[o.at()] as int][k] < s);
        }
        assert forall|y: int| #[trigger] here.contains(y) implies !old.contains(y) by {
            if old.contains(y) {
                let k = choose|k: int| 0 <= k < here.len() && here[k] == y;
                assert(c.owner[here[k]] == o);
                assert(out.contains(o));
            }
        }
        assert(e.owner =~= placement::fill(d.owner, old, BucketIdx::nothing()).update(x, b));
        assert(e.taken =~= placement::fill(d.taken, old, false).update(x, true));
        assert(e.stack =~= d.stack.push(o));
    }
}

/// A scan only ever picks a pilot that may evict.
pub proof fn lemma_scan_picks(c: Chain, t: Table, goal: int, b: BucketIdx, k: int)
    requires
        0 <= k <= PILOTS,
    ensures
        match c.scan(t, goal, b, k).best {
            Some((cost, p)) => {
                &&& 0 <= p < PILOTS
                &&& c.may_evict(t, b, p)
                &&& cost == c.cost(t, b, p)
                &&& exists|i: int| 0 <= i < k && p == #[trigger] c.candidate(b, i)
            },
            None => !c.scan(t, goal, b, k).done && forall|i: int|
                0 <= i < k ==> !c.may_evict(t, b, #[trigger] c.candidate(b, i)),
        },
    decreases k,
{
    if k > 0 {
        lemma_scan_picks(c, t, goal, b, k - 1);
        let p = c.candidate(b, k - 1);
        match c.scan(t, goal, b, k).best {
            Some((cost, q)) => {
                if c.scan(t, goal, b, k) == c.scan(t, goal, b, k - 1) {
                    let i = choose|i: int| 0 <= i < k - 1 && q == #[trigger] c.candidate(b, i);
                    assert(q == c.candidate(b, i));
                } else {
                    assert(q == p);
                }
            },
            None => {},
        }
    }
}

/// A chain keeps the search consistent, and if it was not given up, no bucket waits at its
/// end. It neither adds nor removes buckets or slots.
pub proof fn lemma_settle(
    t: Table,
    s: int,
    goal: int,
    order: Seq<BucketIdx>,
    before: Seq<bool>,
    c: Chain,
)
    requires
        placement::table_ok(t, s),
        order_ok(t, order),
        c.holds(t, s, order, before),
    ensures
        ({
            let (failure, d) = c.settle(t, s, goal);
            &&& failure is None ==> d.stack.len() == 0 && d.holds(t, s, order, before)
            &&& d.pilots.len() == c.pilots.len()
            &&& d.owner.len() == c.owner.len()
            &&& d.taken.len() == c.taken.len()
        }),
    decreases usize::MAX - c.count, c.stack.len(),
{
    if c.stack.len() > 0 {
        let b = c.stack.last();
        let rest = c.pop();
        assert(order.contains(c.stack[c.stack.len() - 1]));
        if !placement::too_long(c.count, s) {
            match placement::first_fit(t[b.at()], rest.taken) {
                Some(p) => {
                    lemma_occupy(t, s, order, before, c, p);
                    lemma_settle(t, s, goal, order, before, rest.occupy(t, b, p));
                },
                None => {
                    lemma_scan_picks(rest, t, goal, b, PILOTS as int);
                    match rest.evicting_pilot(t, goal, b) {
                        Some(p) => if c.count + t[b.at()][p].len() <= usize::MAX {
                            placement::lemma_holders_len(rest.owner, t[b.at()][p]);
                            lemma_evict(t, s, order, before, c, p);
                            lemma_settle(t, s, goal, order, before, rest.evict(t, b, p));
                        },
                        None => {},
                    }
                },
            }
        }
    }
}

impl Board {
    /// What holds between two new buckets, after those of `order`.
    pub open spec fn holds(
        self,
        t: Table,
        s: int,
        order: Seq<BucketIdx>,
        before: Seq<bool>,
    ) -> bool {
        consistent(t, s, order, Seq::empty(), before, self.pilots, self.owner, self.taken)
    }
}

/// At the start of a chain everything but the new bucket is in its place.
pub proof fn lemma_chain_start(
    t: Table,
    s: int,
    order: Seq<BucketIdx>,
    before: Seq<bool>,
    m: Board,
    b: BucketIdx,
)
    requires
        order_ok(t, order.push(b)),
        m.holds(t, s, order, before),
    ensures
        m.chain(b).holds(t, s, order.push(b), before),
{
    let next = order.push(b);
    let c = m.chain(b);
    assert(next[order.len() as int] == b);
    assert(next.contains(b));
    assert forall|e: BucketIdx| #[trigger] next.contains(e) implies e == b || order.contains(e) by {
        let k = choose|k: int| 0 <= k < next.len() && next[k] == e;
        if k < order.len() {
            assert(order[k] == e);
        }
    }
    assert forall|e: BucketIdx| #[trigger] order.contains(e) implies next.contains(e) && e != b by {
        let k = choose|k: int| 0 <= k < order.len() && order[k] == e;
        assert(next[k] == e);
        assert(next[k] != next[order.len() as int]);
    }
    assert(c.stack[0] == b);
    assert(c.stack.contains(b));
    assert forall|e: BucketIdx| #[trigger] c.stack.contains(e) implies e == b by {}
    assert forall|e: BucketIdx| #[trigger]
        next.contains(e) && !c.stack.contains(e) implies at_home(t, c.pilots, c.owner, e) by {
        assert(order.contains(e));
        assert(!Seq::<BucketIdx>::empty().contains(e));
    }
    assert forall|x: int| 0 <= x < s && !(#[trigger] c.owner[x]).absent() implies {
        &&& next.contains(c.owner[x])
        &&& !c.stack.contains(c.owner[x])
    } by {
        assert(order.contains(m.owner[x]));
    }
}

/// To find a place for one more bucket keeps the search consistent.
pub proof fn lemma_add(
    t: Table,
    s: int,
    order: Seq<BucketIdx>,
    before: Seq<bool>,
    m: Board,
    b: BucketIdx,
)
    requires
        placement::table_ok(t, s),
        order_ok(t, order.push(b)),
        m.holds(t, s, order, before),
        m.add(t, s, b).ok(),
    ensures
        m.add(t, s, b).holds(t, s, order.push(b), before),
{
    let next = order.push(b);
    let n = m.add(t, s, b);
    lemma_chain_start(t, s, order, before, m, b);
    assert(next[order.len() as int] == b);
    if placement::size(t, b.at()) == 0 {
        let c = m.chain(b);
        assert(t[b.at()].len() == PILOTS);
        assert(t[b.at()][0].len() == 0);
        assert(slots_of(t, n.pilots, b).len() == 0);
        assert(c.stack[0] == b);
        assert forall|e: BucketIdx| #[trigger] next.contains(e) implies at_home(
            t,
            n.pilots,
            n.owner,
            e,
        ) by {
            if e != b {
                assert(!c.stack.contains(e));
                assert(at_home(t, c.pilots, c.owner, e));
                assert(slots_of(t, n.pilots, e) == slots_of(t, c.pilots, e));
            }
        }
        assert forall|x: int| 0 <= x < s && !(#[trigger] n.owner[x]).absent() implies {
            &&& next.contains(n.owner[x])
            &&& slots_of(t, n.pilots, n.owner[x]).contains(x)
            &&& n.taken[x]
        } by {
            assert(!c.owner[x].absent());
            assert(!c.stack.contains(c.owner[x]));
            assert(c.owner[x] != b);
        }
    } else {
        lemma_settle(
            t,
            s,
            placement::size(t, b.at()) * placement::size(t, b.at()),
            next,
            before,
            m.chain(b),
        );
        let (failure, d) = m.chain(b).settle(
            t,
            s,
            placement::size(t, b.at()) * placement::size(t, b.at()),
        );
        assert(d.stack =~= Seq::empty());
    }
}

/// The search is consistent after every prefix of the buckets, as long as none was given
/// up.
pub proof fn lemma_add_all(
    t: Table,
    s: int,
    order: Seq<BucketIdx>,
    pilots: Seq<u8>,
    taken: Seq<bool>,
)
    requires
        placement::table_ok(t, s),
        order_ok(t, order),
        0 <= s <= taken.len(),
        pilots.len() >= t.len(),
        Board::start(s, pilots, taken).add_all(t, s, order).ok(),
    ensures
        Board::start(s, pilots, taken).add_all(t, s, order).holds(t, s, order, taken),
    decreases order.len(),
{
    let m = Board::start(s, pilots, taken);
    if order.len() > 0 {
        let rest = order.drop_last();
        assert(rest.push(order.last()) =~= order);
        lemma_order_prefix(t, order, order.len() - 1);
        lemma_add_all(t, s, rest, pilots, taken);
        lemma_add(t, s, rest, taken, m.add_all(t, s, rest), order.last());
    } else {
        assert forall|b: BucketIdx| !order.contains(b) by {}
    }
}

/// The search neither adds nor removes buckets or slots, whether or not a bucket was given
/// up.
pub proof fn lemma_add_all_len(
    t: Table,
    s: int,
    order: Seq<BucketIdx>,
    pilots: Seq<u8>,
    taken: Seq<bool>,
)
    requires
        placement::table_ok(t, s),
        order_ok(t, order),
        0 <= s <= taken.len(),
        pilots.len() >= t.len(),
    ensures
        ({
            let m = Board::start(s, pilots, taken).add_all(t, s, order);
            m.pilots.len() == pilots.len() && m.taken.len() == taken.len()
        }),
    decreases order.len(),
{
    let m = Board::start(s, pilots, taken);
    if order.len() > 0 {
        let rest = order.drop_last();
        let b = order.last();
        assert(rest.push(b) =~= order);
        lemma_order_prefix(t, order, order.len() - 1);
        lemma_add_all_len(t, s, rest, pilots, taken);
        let before = m.add_all(t, s, rest);
        if before.ok() {
            lemma_add_all(t, s, rest, pilots, taken);
            lemma_chain_start(t, s, rest, taken, before, b);
            lemma_settle(
                t,
                s,
                placement::size(t, b.at()) * placement::size(t, b.at()),
                order,
                taken,
                before.chain(b),
            );
        }
    }
}

/// **Perfect hashing.** When every bucket found a place, no two keys of the part share a
/// slot.
pub proof fn lemma_perfect(
    t: Table,
    s: int,
    order: Seq<BucketIdx>,
    pilots: Seq<u8>,
    taken: Seq<bool>,
)
    requires
        placement::table_ok(t, s),
        order_ok(t, order),
        0 <= s <= taken.len(),
        pilots.len() >= t.len(),
        Board::start(s, pilots, taken).add_all(t, s, order).ok(),
    ensures
        ({
            let m = Board::start(s, pilots, taken).add_all(t, s, order);
            &&& is_perfect(t, m.pilots, order)
            &&& marks_slots(t, m.pilots, order, taken, m.taken)
        }),
{
    let m = Board::start(s, pilots, taken).add_all(t, s, order);
    lemma_add_all(t, s, order, pilots, taken);
    assert forall|b: BucketIdx| #[trigger] order.contains(b) implies at_home(
        t,
        m.pilots,
        m.owner,
        b,
    ) by {
        assert(!Seq::<BucketIdx>::empty().contains(b));
    }
    assert forall|b: BucketIdx, i: int|
        order.contains(b) && 0 <= i < slots_of(t, m.pilots, b).len() implies {
        let x = #[trigger] slots_of(t, m.pilots, b)[i];
        &&& 0 <= x < s
        &&& m.owner[x] == b
        &&& m.taken[x]
    } by {
        let k = choose|k: int| 0 <= k < order.len() && order[k] == b;
        assert(!order[k].absent());
        let x = t[b.at()][m.pilots[b.at()] as int][i];
        assert(0 <= x < s);
        assert(m.owner[slots_of(t, m.pilots, b)[i]] == b);
        assert(!m.owner[x].absent());
    }
    assert forall|x: int| 0 <= x < m.taken.len() && #[trigger] m.taken[x] && !taken[x] implies exists|
        b: BucketIdx,
    | order.contains(b) && #[trigger] slots_of(t, m.pilots, b).contains(x) by {
        let b = m.owner[x];
        assert(order.contains(b));
        assert(slots_of(t, m.pilots, b).contains(x));
    }
}

/// The number of keys in the buckets of `order`.
pub open spec fn key_count(t: Table, order: Seq<BucketIdx>) -> int
    decreases order.len(),
{
    if order.len() == 0 {
        0
    } else {
        key_count(t, order.drop_last()) + placement::size(t, order.last().at())
    }
}

/// The slots of all keys in the buckets of `order`.
pub open spec fn all_slots(t: Table, pilots: Seq<u8>, order: Seq<BucketIdx>) -> Seq<int>
    decreases order.len(),
{
    if order.len() == 0 {
        Seq::empty()
    } else {
        all_slots(t, pilots, order.drop_last()) + slots_of(t, pilots, order.last())
    }
}

/// The slots of a perfect hash function, listed key by key, are as many as there are keys,
/// and no two are the same.
pub proof fn lemma_all_slots(t: Table, s: int, pilots: Seq<u8>, order: Seq<BucketIdx>)
    requires
        placement::table_ok(t, s),
        order_ok(t, order),
        is_perfect(t, pilots, order),
    ensures
        all_slots(t, pilots, order).len() == key_count(t, order),
        all_slots(t, pilots, order).no_duplicates(),
        forall|x: int| #[trigger]
            all_slots(t, pilots, order).contains(x) ==> 0 <= x < s && exists|b: BucketIdx|
                order.contains(b) && #[trigger] slots_of(t, pilots, b).contains(x),
    decreases order.len(),
{
    if order.len() > 0 {
        let rest = order.drop_last();
        let b = order.last();
        assert(order[order.len() - 1] == b);
        assert(order.contains(b));
        assert forall|c: BucketIdx| #[trigger] rest.contains(c) implies order.contains(c) && c
            != b by {
            let k = choose|k: int| 0 <= k < rest.len() && rest[k] == c;
            assert(order[k] == c);
        }
        lemma_order_prefix(t, order, order.len() - 1);
        lemma_all_slots(t, s, pilots, rest);
        let old = all_slots(t, pilots, rest);
        let new = slots_of(t, pilots, b);
        let all = all_slots(t, pilots, order);
        assert(new.len() == placement::size(t, b.at())) by {
            assert(t[b.at()][pilots[b.at()] as int].len() == t[b.at()][0].len());
        }
        assert forall|i: int| 0 <= i < new.len() implies 0 <= #[trigger] new[i] < s by {
            assert(0 <= t[b.at()][pilots[b.at()] as int][i] < s);
        }
        assert forall|i: int, j: int| 0 <= i < old.len() && 0 <= j < new.len() implies old[i]
            != new[j] by {
            assert(old.contains(old[i]));
            let c = choose|c: BucketIdx|
                rest.contains(c) && #[trigger] slots_of(t, pilots, c).contains(old[i]);
            let k = choose|k: int|
                0 <= k < slots_of(t, pilots, c).len() && slots_of(t, pilots, c)[k] == old[i];
            assert(slots_of(t, pilots, c)[k] != slots_of(t, pilots, b)[j]);
        }
        assert(all == old + new);
        assert(all.no_duplicates()) by {
            assert forall|i: int, j: int| 0 <= i < j < all.len() implies all[i] != all[j] by {
                if j < old.len() {
                    assert(old[i] != old[j]);
                } else if i >= old.len() {
                    assert(new[i - old.len()] != new[j - old.len()]);
                } else {
                    assert(old[i] != new[j - old.len()]);
                }
            }
        }
        assert forall|x: int| #[trigger] all.contains(x) implies 0 <= x < s && exists|c: BucketIdx|
            order.contains(c) && #[trigger] slots_of(t, pilots, c).contains(x) by {
            let k = choose|k: int| 0 <= k < all.len() && all[k] == x;
            if k < old.len() {
                assert(old[k] == x);
                assert(old.contains(x));
                let c = choose|c: BucketIdx|
                    rest.contains(c) && #[trigger] slots_of(t, pilots, c).contains(x);
                assert(order.contains(c) && slots_of(t, pilots, c).contains(x));
            } else {
                assert(new[k - old.len()] == x);
                assert(slots_of(t, pilots, b).contains(x));
            }
        }
    }
}

/// **The bitmap is exact.** When all slots were free at first and every bucket found a
/// place, the slots in use are exactly those of the keys.
pub proof fn lemma_taken_exact(
    t: Table,
    s: int,
    order: Seq<BucketIdx>,
    pilots: Seq<u8>,
    taken: Seq<bool>,
    x: int,
)
    requires
        placement::table_ok(t, s),
        order_ok(t, order),
        0 <= s <= taken.len(),
        pilots.len() >= t.len(),
        Board::start(s, pilots, taken).add_all(t, s, order).ok(),
        forall|y: int| 0 <= y < taken.len() ==> !#[trigger] taken[y],
        0 <= x < taken.len(),
    ensures
        ({
            let m = Board::start(s, pilots, taken).add_all(t, s, order);
            m.taken[x] <==> exists|b: BucketIdx|
                order.contains(b) && #[trigger] slots_of(t, m.pilots, b).contains(x)
        }),
{
    let m = Board::start(s, pilots, taken).add_all(t, s, order);
    lemma_perfect(t, s, order, pilots, taken);
    if exists|b: BucketIdx|
        order.contains(b) && #[trigger] slots_of(t, m.pilots, b).contains(x) {
        let b = choose|b: BucketIdx|
            order.contains(b) && #[trigger] slots_of(t, m.pilots, b).contains(x);
        let i = choose|i: int|
            0 <= i < slots_of(t, m.pilots, b).len() && slots_of(t, m.pilots, b)[i] == x;
        assert(m.taken[slots_of(t, m.pilots, b)[i]]);
    }
}

/// **Enough room.** Where the search succeeds, the part has at least as many slots as
/// keys. So with more keys than slots it always fails.
pub proof fn lemma_needs_room(
    t: Table,
    s: int,
    order: Seq<BucketIdx>,
    pilots: Seq<u8>,
    taken: Seq<bool>,
)
    requires
        placement::table_ok(t, s),
        order_ok(t, order),
        0 <= s <= taken.len(),
        pilots.len() >= t.len(),
        Board::start(s, pilots, taken).add_all(t, s, order).ok(),
    ensures
        key_count(t, order) <= s,
{
    let m = Board::start(s, pilots, taken).add_all(t, s, order);
    lemma_perfect(t, s, order, pilots, taken);
    lemma_all_slots(t, s, m.pilots, order);
    let all = all_slots(t, m.pilots, order);
    all.unique_seq_to_set();
    vstd::set_lib::lemma_int_range(0, s);
    assert(all.to_set().subset_of(vstd::set_lib::set_int_range(0, s)));
    vstd::set_lib::lemma_len_subset(all.to_set(), vstd::set_lib::set_int_range(0, s));
}

/// **Indistinguishable keys.** If no pilot tells the keys of some bucket apart, the search
/// fails.
pub proof fn lemma_indistinguishable(
    t: Table,
    s: int,
    order: Seq<BucketIdx>,
    pilots: Seq<u8>,
    taken: Seq<bool>,
    b: BucketIdx,
)
    requires
        placement::table_ok(t, s),
        order_ok(t, order),
        0 <= s <= taken.len(),
        pilots.len() >= t.len(),
        order.contains(b),
        forall|p: int| 0 <= p < PILOTS ==> !(#[trigger] t[b.at()][p]).no_duplicates(),
    ensures
        !Board::start(s, pilots, taken).add_all(t, s, order).ok(),
{
    let m = Board::start(s, pilots, taken).add_all(t, s, order);
    if m.ok() {
        lemma_perfect(t, s, order, pilots, taken);
        assert(slots_of(t, m.pilots, b).no_duplicates());
        assert(!t[b.at()][m.pilots[b.at()] as int].no_duplicates());
    }
}

/// **No needless eviction.** A new bucket that fits somewhere takes the first pilot under
/// which it fits, and no other bucket moves.
pub proof fn lemma_free_bucket(t: Table, s: int, m: Board, b: BucketIdx, p: int)
    requires
        0 <= s,
        m.total <= usize::MAX,
        placement::size(t, b.at()) > 0,
        placement::is_first_fit(t[b.at()], m.taken, PILOTS as int, p),
    ensures
        m.add(t, s, b) == (Board {
            pilots: m.pilots.update(b.at(), p as u8),
            owner: placement::fill(m.owner, t[b.at()][p], b),
            taken: placement::fill(m.taken, t[b.at()][p], true),
            total: m.total,
            failure: None,
        }),
{
    let goal = placement::size(t, b.at()) * placement::size(t, b.at());
    let c = m.chain(b);
    placement::lemma_first_fit(t[b.at()], m.taken, p);
    let d = c.pop().occupy(t, b, p);
    assert(c.stack.drop_last() =~= Seq::empty());
    assert(c.stack.last() == b);
    assert(d.settle(t, s, goal) == (None::<Failure>, d));
    assert(c.settle(t, s, goal) == d.settle(t, s, goal));
}

/// Every pilot is tried, at the place that its distance from the bucket's pilot gives it.
pub(crate) proof fn lemma_candidate(c: Chain, b: BucketIdx, p: int) -> (k: int)
    requires
        0 <= p < PILOTS,
    ensures
        0 <= k < PILOTS,
        c.candidate(b, k) == p,
{
    let first = c.pilots[b.at()] as int + 1;
    if p >= first {
        p - first
    } else {
        p + PILOTS - first
    }
}

/// A bucket goes without a pilot to evict with only if no pilot may evict: each lets two of
/// its keys share a slot, or would evict a recent bucket.
pub proof fn lemma_no_evicting_pilot(c: Chain, t: Table, goal: int, b: BucketIdx)
    ensures
        c.evicting_pilot(t, goal, b) is None <==> forall|p: int|
            0 <= p < PILOTS ==> !#[trigger] c.may_evict(t, b, p),
{
    lemma_scan_picks(c, t, goal, b, PILOTS as int);
    if c.evicting_pilot(t, goal, b) is None {
        assert forall|p: int| 0 <= p < PILOTS implies !#[trigger] c.may_evict(t, b, p) by {
            let k = lemma_candidate(c, b, p);
            assert(!c.may_evict(t, b, c.candidate(b, k)));
        }
    }
}

/// **No ping-pong.** The buckets that last evicted others are never evicted themselves.
pub proof fn lemma_spares_recent(
    c: Chain,
    t: Table,
    goal: int,
    b: BucketIdx,
    p: int,
    e: BucketIdx,
)
    requires
        c.evicting_pilot(t, goal, b) == Some(p),
        placement::holders(c.owner, t[b.at()][p]).contains(e),
    ensures
        !placement::is_recent(c.history, e),
{
    let slots = t[b.at()][p];
    lemma_scan_picks(c, t, goal, b, PILOTS as int);
    lemma_holders(c.owner, slots);
    let i = choose|i: int| 0 <= i < slots.len() && c.owner[#[trigger] slots[i]] == e;
    assert(!c.owner[slots[i]].absent());
}

/// While a scan goes on, its pilot is the cheapest of those tried. Where no pilot costs
/// less than `goal`, that holds of a scan that is done, too, and of all pilots.
pub(crate) proof fn lemma_scan_least(c: Chain, t: Table, goal: int, b: BucketIdx, k: int)
    requires
        0 <= k <= PILOTS,
        forall|p: int|
            0 <= p < PILOTS && #[trigger] c.may_evict(t, b, p) ==> c.cost(t, b, p) >= goal,
        goal >= 0,
    ensures
        match c.scan(t, goal, b, k).best {
            Some((cost, _)) => if c.scan(t, goal, b, k).done {
                cost == goal
            } else {
                forall|i: int|
                    0 <= i < k && c.may_evict(t, b, #[trigger] c.candidate(b, i)) ==> c.cost(
                        t,
                        b,
                        c.candidate(b, i),
                    ) >= cost
            },
            None => true,
        },
    decreases k,
{
    if k > 0 {
        lemma_scan_least(c, t, goal, b, k - 1);
        lemma_scan_picks(c, t, goal, b, k - 1);
        assert(0 <= c.candidate(b, k - 1) < PILOTS);
        assert forall|i: int|
            0 <= i < k && c.may_evict(t, b, #[trigger] c.candidate(b, i)) implies 0 <= c.cost(
            t,
            b,
            c.candidate(b, i),
        ) by {
            assert(0 <= c.candidate(b, i) < PILOTS);
        }
    }
}

/// **Least damage.** A bucket evicts with a pilot that does the least damage of all pilots
/// that may evict, provided that none does less than `goal`, at which the scan ends. That
/// is so when no bucket that holds a slot is smaller than the new one, since `goal` is the
/// square of its size.
pub proof fn lemma_least_damage(c: Chain, t: Table, goal: int, b: BucketIdx, p: int, q: int)
    requires
        goal >= 0,
        forall|r: int|
            0 <= r < PILOTS && #[trigger] c.may_evict(t, b, r) ==> c.cost(t, b, r) >= goal,
        c.evicting_pilot(t, goal, b) == Some(p),
        0 <= q < PILOTS,
        c.may_evict(t, b, q),
    ensures
        c.may_evict(t, b, p),
        c.cost(t, b, p) <= c.cost(t, b, q),
{
    lemma_scan_picks(c, t, goal, b, PILOTS as int);
    lemma_scan_least(c, t, goal, b, PILOTS as int);
    let k = lemma_candidate(c, b, q);
    assert(c.may_evict(t, b, c.candidate(b, k)));
}

/// If a bucket fits under some pilot, it has a first pilot under which it fits.
pub proof fn lemma_some_fit(choices: Seq<Seq<int>>, taken: Seq<bool>, p: int)
    requires
        0 <= p < PILOTS,
        placement::fits(choices[p], taken),
    ensures
        placement::first_fit(choices, taken) is Some,
    decreases p,
{
    if exists|q: int| 0 <= q < p && placement::fits(#[trigger] choices[q], taken) {
        let q = choose|q: int| 0 <= q < p && placement::fits(#[trigger] choices[q], taken);
        lemma_some_fit(choices, taken, q);
    } else {
        assert(placement::is_first_fit(choices, taken, PILOTS as int, p));
    }
}

/// The damage is at least the square of the size of any bucket that is hit.
pub(crate) proof fn lemma_damage_of_hit(t: Table, owner: Seq<BucketIdx>, slots: Seq<int>, i: int)
    requires
        0 <= i < slots.len(),
        !owner[slots[i]].absent(),
    ensures
        damage_of(t, owner[slots[i]]) <= placement::damage(t, owner, slots),
    decreases slots.len(),
{
    let rest = slots.drop_last();
    let o = owner[slots.last()];
    assert(0 <= damage_of(t, o)) by (nonlinear_arith)
        requires
            damage_of(t, o) == placement::size(t, o.at()) * placement::size(t, o.at()),
    ;
    if i < rest.len() {
        assert(rest[i] == slots[i]);
        lemma_damage_of_hit(t, owner, rest, i);
    } else {
        placement::lemma_damage_grows(t, owner, rest, 0);
        assert(rest.take(0) =~= Seq::empty());
        assert(slots.last() == slots[i]);
    }
}

/// What it costs to evict bucket `b`.
pub open spec fn damage_of(t: Table, b: BucketIdx) -> int {
    placement::size(t, b.at()) * placement::size(t, b.at())
}

/// **Least damage, largest buckets first.** When the slots were all free at first and no
/// bucket that was begun has fewer than `n` keys, then a bucket that fits nowhere evicts
/// with a pilot that does the least damage of all that may evict.
pub proof fn lemma_least_damage_sorted(
    t: Table,
    s: int,
    order: Seq<BucketIdx>,
    before: Seq<bool>,
    c: Chain,
    n: int,
    p: int,
    q: int,
)
    requires
        placement::table_ok(t, s),
        order_ok(t, order),
        c.holds(t, s, order, before),
        c.stack.len() > 0,
        forall|x: int| 0 <= x < before.len() ==> !#[trigger] before[x],
        n >= 0,
        forall|e: BucketIdx| #[trigger] order.contains(e) ==> placement::size(t, e.at()) >= n,
        placement::first_fit(t[c.stack.last().at()], c.taken) is None,
        c.pop().evicting_pilot(t, n * n, c.stack.last()) == Some(p),
        0 <= q < PILOTS,
        c.pop().may_evict(t, c.stack.last(), q),
    ensures
        c.pop().may_evict(t, c.stack.last(), p),
        c.pop().cost(t, c.stack.last(), p) <= c.pop().cost(t, c.stack.last(), q),
{
    let b = c.stack.last();
    let rest = c.pop();
    assert(order.contains(c.stack[c.stack.len() - 1]));
    assert(0 <= n * n) by (nonlinear_arith)
        requires
            0 <= n,
    ;
    assert forall|r: int| 0 <= r < PILOTS && #[trigger] rest.may_evict(t, b, r) implies rest.cost(
        t,
        b,
        r,
    ) >= n * n by {
        let slots = t[b.at()][r];
        if forall|i: int| 0 <= i < slots.len() ==> c.owner[#[trigger] slots[i]].absent() {
            assert forall|i: int| 0 <= i < slots.len() implies !#[trigger] c.taken[slots[i]] by {
                assert(0 <= t[b.at()][r][i] < s);
                assert(c.owner[slots[i]].absent());
            }
            assert(placement::fits(slots, c.taken));
            lemma_some_fit(t[b.at()], c.taken, r);
        } else {
            let i = choose|i: int|
                0 <= i < slots.len() && !c.owner[#[trigger] slots[i]].absent();
            assert(0 <= t[b.at()][r][i] < s);
            let e = c.owner[slots[i]];
            assert(order.contains(e));
            lemma_damage_of_hit(t, c.owner, slots, i);
            let m = placement::size(t, e.at());
            assert(m * m >= n * n) by (nonlinear_arith)
                requires
                    m >= n,
                    n >= 0,
            ;
        }
    }
    lemma_least_damage(rest, t, n * n, b, p, q);
}

} // verus!
