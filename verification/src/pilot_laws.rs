//! What the search for the pilot of one bucket finds, and what two such searches have to do
//! with each other.

use crate::displace::PtrHash;
use crate::hasher::PilotHasher;
use crate::placement;
use crate::run_laws;
use vstd::prelude::*;

verus! {

/// To apply a function to each element of two lists keeps them permutations of each other.
pub proof fn lemma_permuted_map<A, B>(s: Seq<A>, r: Seq<A>, f: spec_fn(A) -> B)
    requires
        s.to_multiset() == r.to_multiset(),
    ensures
        s.map_values(f).to_multiset() == r.map_values(f).to_multiset(),
    decreases s.len(),
{
    vstd::seq_lib::to_multiset_len(s);
    vstd::seq_lib::to_multiset_len(r);
    if s.len() == 0 {
        assert(s.map_values(f) =~= r.map_values(f));
    } else {
        let last = s.len() - 1;
        let x = s[last];
        vstd::seq_lib::to_multiset_contains(s, x);
        vstd::seq_lib::to_multiset_contains(r, x);
        let k = choose|k: int| 0 <= k < r.len() && r[k] == x;
        vstd::seq_lib::to_multiset_remove(s, last);
        vstd::seq_lib::to_multiset_remove(r, k);
        lemma_permuted_map(s.remove(last), r.remove(k), f);
        assert(s.remove(last).map_values(f) =~= s.map_values(f).remove(last));
        assert(r.remove(k).map_values(f) =~= r.map_values(f).remove(k));
        vstd::seq_lib::to_multiset_insert(s.map_values(f).remove(last), last, f(x));
        vstd::seq_lib::to_multiset_insert(r.map_values(f).remove(k), k, f(x));
        assert(s.map_values(f).remove(last).insert(last, f(x)) =~= s.map_values(f));
        assert(r.map_values(f).remove(k).insert(k, f(x)) =~= r.map_values(f));
    }
}

/// Whether a bucket fits does not depend on the order of its slots, nor does what it takes.
pub proof fn lemma_permuted_slots(s: Seq<int>, r: Seq<int>, taken: Seq<bool>)
    requires
        s.to_multiset() == r.to_multiset(),
    ensures
        placement::fits(s, taken) == placement::fits(r, taken),
        placement::fill(taken, s, true) == placement::fill(taken, r, true),
{
    assert forall|x: int| s.contains(x) <==> r.contains(x) by {
        vstd::seq_lib::to_multiset_contains(s, x);
        vstd::seq_lib::to_multiset_contains(r, x);
    }
    lemma_permuted_fits(s, r, taken);
    lemma_permuted_fits(r, s, taken);
    assert(placement::fill(taken, s, true) =~= placement::fill(taken, r, true));
}

proof fn lemma_permuted_fits(s: Seq<int>, r: Seq<int>, taken: Seq<bool>)
    requires
        s.to_multiset() == r.to_multiset(),
        forall|x: int| s.contains(x) <==> r.contains(x),
    ensures
        placement::fits(s, taken) ==> placement::fits(r, taken),
{
    if placement::fits(s, taken) {
        s.lemma_multiset_has_no_duplicates();
        r.lemma_multiset_has_no_duplicates_conv();
        assert forall|i: int| 0 <= i < r.len() implies !#[trigger] taken[r[i]] by {
            assert(r.contains(r[i]));
            let k = choose|k: int| 0 <= k < s.len() && s[k] == r[i];
            assert(!taken[s[k]]);
        }
    }
}

impl<Hx: PilotHasher> PtrHash<Hx> {
    /// **One search.** [`Self::find_pilot`], [`Self::find_pilot_array`] and
    /// [`Self::find_pilot_slice`] find the same pilot and take the same slots: what they
    /// state has one solution.
    pub proof fn lemma_find_pilot_agrees(
        &self,
        kmax: u64,
        bucket: Seq<Hx::H>,
        before: Seq<bool>,
        after: Seq<bool>,
        found: Option<(u64, u64)>,
        other_after: Seq<bool>,
        other_found: Option<(u64, u64)>,
    )
        requires
            self.pilot_found(kmax, bucket, before, after, found),
            self.pilot_found(kmax, bucket, before, other_after, other_found),
        ensures
            found == other_found,
            after == other_after,
    {
        match (found, other_found) {
            (Some((p, hp)), _) => self.lemma_find_pilot_limit(
                kmax,
                kmax,
                bucket,
                before,
                after,
                p,
                hp,
                other_after,
                other_found,
            ),
            (None, Some((p, hp))) => self.lemma_find_pilot_limit(
                kmax,
                kmax,
                bucket,
                before,
                other_after,
                p,
                hp,
                after,
                found,
            ),
            (None, None) => {},
        }
    }

    /// **Other limits.** With another limit on the pilots the same pilot is found and the
    /// same slots are taken, unless the limit shuts that pilot out. Then none is found, and
    /// nothing is taken.
    pub proof fn lemma_find_pilot_limit(
        &self,
        k1: u64,
        k2: u64,
        bucket: Seq<Hx::H>,
        before: Seq<bool>,
        after: Seq<bool>,
        p: u64,
        hp: u64,
        other_after: Seq<bool>,
        other_found: Option<(u64, u64)>,
    )
        requires
            self.pilot_found(k1, bucket, before, after, Some((p, hp))),
            self.pilot_found(k2, bucket, before, other_after, other_found),
        ensures
            other_found == if k2 > p {
                Some((p, hp))
            } else {
                None
            },
            other_after == if k2 > p {
                after
            } else {
                before
            },
    {
        let c1 = self.choices(bucket, k1 as int);
        let c2 = self.choices(bucket, k2 as int);
        assert forall|q: int| 0 <= q < k1 && q < k2 implies #[trigger] c1[q] == c2[q] by {}
        if k2 > p {
            assert(placement::fits(c2[p as int], before));
        }
        match other_found {
            Some((q, hq)) => {
                if q < p {
                    assert(!placement::fits(c1[q as int], before));
                }
                if p < q {
                    assert(!placement::fits(c2[p as int], before));
                }
            },
            None => {},
        }
    }

    /// **The order of the keys.** A bucket with the same keys in another order gets the same
    /// pilot and takes the same slots.
    pub proof fn lemma_find_pilot_permuted(
        &self,
        kmax: u64,
        bucket: Seq<Hx::H>,
        other: Seq<Hx::H>,
        before: Seq<bool>,
        after: Seq<bool>,
        found: Option<(u64, u64)>,
        other_after: Seq<bool>,
        other_found: Option<(u64, u64)>,
    )
        requires
            bucket.to_multiset() == other.to_multiset(),
            self.pilot_found(kmax, bucket, before, after, found),
            self.pilot_found(kmax, other, before, other_after, other_found),
        ensures
            found == other_found,
            after == other_after,
    {
        let c1 = self.choices(bucket, kmax as int);
        let c2 = self.choices(other, kmax as int);
        assert forall|q: int| 0 <= q < kmax implies {
            &&& placement::fits(#[trigger] c1[q], before) == placement::fits(c2[q], before)
            &&& placement::fill(before, c1[q], true) == placement::fill(before, c2[q], true)
        } by {
            let hp = self.hasher.pilot_hash(q as u64);
            let slot = |hx: Hx::H| self.hasher.slot(hx, hp);
            lemma_permuted_map(bucket, other, slot);
            assert(c1[q] =~= bucket.map_values(slot));
            assert(c2[q] =~= other.map_values(slot));
            lemma_permuted_slots(c1[q], c2[q], before);
        }
        assert forall|q: int| 0 <= q < kmax implies placement::fits(c1[q], before)
            == placement::fits(#[trigger] c2[q], before) by {
            assert(placement::fits(c1[q], before) == placement::fits(c2[q], before));
        }
        assert(self.pilot_found(kmax, bucket, before, other_after, other_found)) by {
            match other_found {
                Some((p, _)) => {
                    assert(placement::fits(c1[p as int], before));
                },
                None => {},
            }
        }
        self.lemma_find_pilot_agrees(
            kmax,
            bucket,
            before,
            after,
            found,
            other_after,
            other_found,
        );
    }

    /// **Searching again.** After a bucket with keys has taken its slots, the next search
    /// for the same bucket finds a larger pilot, or none.
    pub proof fn lemma_find_pilot_again(
        &self,
        kmax: u64,
        bucket: Seq<Hx::H>,
        before: Seq<bool>,
        after: Seq<bool>,
        p: u64,
        hp: u64,
        last: Seq<bool>,
        again: Option<(u64, u64)>,
    )
        requires
            self.valid(),
            before.len() >= self.s,
            bucket.len() > 0,
            self.pilot_found(kmax, bucket, before, after, Some((p, hp))),
            self.pilot_found(kmax, bucket, after, last, again),
        ensures
            match again {
                Some((q, _)) => q > p,
                None => true,
            },
    {
        let choices = self.choices(bucket, kmax as int);
        match again {
            Some((q, _)) => {
                let slots = choices[q as int];
                self.lemma_bucket_slots(bucket, self.hasher.pilot_hash(q));
                if q < p {
                    assert(!placement::fits(choices[q as int], before));
                    assert(placement::fits(slots, before)) by {
                        assert forall|i: int| 0 <= i < slots.len() implies !#[trigger] before[slots[i]] by {
                            assert(!after[slots[i]]);
                        }
                    }
                }
                if q == p {
                    assert(slots.contains(slots[0]));
                    assert(!after[slots[0]]);
                }
            },
            None => {},
        }
    }
}

impl<Hx: PilotHasher> PtrHash<Hx> {
    /// Under a pilot with hash `hp` the keys of `bucket` have slots that differ from each
    /// other and are not in use.
    pub open spec fn is_free_under(&self, bucket: Seq<Hx::H>, taken: Seq<bool>, hp: u64) -> bool {
        &&& forall|i: int, j: int|
            0 <= i < j < bucket.len() ==> self.hasher.slot(#[trigger] bucket[i], hp)
                != self.hasher.slot(#[trigger] bucket[j], hp)
        &&& forall|i: int|
            0 <= i < bucket.len() ==> !taken[self.hasher.slot(#[trigger] bucket[i], hp)]
    }

    /// **What is taken.** A bucket fits if and only if its keys have slots that differ from
    /// each other and are not in use. To fill its slots is to write to the slot of each of its
    /// keys, and to no other.
    pub proof fn lemma_take(&self, bucket: Seq<Hx::H>, taken: Seq<bool>, hp: u64, v: bool)
        ensures
            placement::fits(self.bucket_slots(bucket, hp), taken) <==> self.is_free_under(
                bucket,
                taken,
                hp,
            ),
            ({
                let after = placement::fill(taken, self.bucket_slots(bucket, hp), v);
                &&& after.len() == taken.len()
                &&& forall|i: int|
                    0 <= i < bucket.len() && 0 <= self.hasher.slot(bucket[i], hp) < taken.len()
                        ==> after[self.hasher.slot(#[trigger] bucket[i], hp)] == v
                &&& forall|x: int|
                    0 <= x < taken.len() && (forall|i: int|
                        0 <= i < bucket.len() ==> self.hasher.slot(#[trigger] bucket[i], hp) != x)
                        ==> #[trigger] after[x] == taken[x]
            }),
    {
        let slots = self.bucket_slots(bucket, hp);
        let after = placement::fill(taken, slots, v);
        assert forall|i: int| 0 <= i < bucket.len() implies #[trigger] slots[i]
            == self.hasher.slot(bucket[i], hp) by {}
        run_laws::lemma_is_free(slots, taken);
        if self.is_free_under(bucket, taken, hp) {
            assert forall|i: int, j: int| 0 <= i < j < slots.len() implies #[trigger] slots[i]
                != #[trigger] slots[j] by {
                assert(self.hasher.slot(bucket[i], hp) != self.hasher.slot(bucket[j], hp));
            }
            assert forall|i: int| 0 <= i < slots.len() implies !taken[#[trigger] slots[i]] by {
                assert(!taken[self.hasher.slot(bucket[i], hp)]);
            }
        }
        if run_laws::is_free(slots, taken) {
            assert forall|i: int, j: int| 0 <= i < j < bucket.len() implies self.hasher.slot(
                #[trigger] bucket[i],
                hp,
            ) != self.hasher.slot(#[trigger] bucket[j], hp) by {
                assert(slots[i] != slots[j]);
            }
            assert forall|i: int| 0 <= i < bucket.len() implies !taken[self.hasher.slot(
                #[trigger] bucket[i],
                hp,
            )] by {
                assert(!taken[slots[i]]);
            }
        }
        assert forall|i: int|
            0 <= i < bucket.len() && 0 <= self.hasher.slot(bucket[i], hp)
                < taken.len() implies after[self.hasher.slot(#[trigger] bucket[i], hp)] == v by {
            assert(slots.contains(slots[i]));
        }
        assert forall|x: int|
            0 <= x < taken.len() && (forall|i: int|
                0 <= i < bucket.len() ==> self.hasher.slot(#[trigger] bucket[i], hp)
                    != x) implies #[trigger] after[x] == taken[x] by {
            if slots.contains(x) {
                let i = choose|i: int| 0 <= i < slots.len() && slots[i] == x;
                assert(self.hasher.slot(bucket[i], hp) == x);
            }
        }
    }

    /// **What is found.** [`Self::find_pilot`] finds the first of the pilots below `kmax` under
    /// which the keys of the bucket have slots that differ from each other and are not in use,
    /// with the pilot's hash. Exactly these slots are in use afterwards besides those that
    /// were. If there is no such pilot it finds none, and nothing changes.
    pub proof fn lemma_found(
        &self,
        kmax: u64,
        bucket: Seq<Hx::H>,
        before: Seq<bool>,
        after: Seq<bool>,
        found: Option<(u64, u64)>,
    )
        requires
            self.valid(),
            before.len() >= self.s,
            self.pilot_found(kmax, bucket, before, after, found),
        ensures
            match found {
                Some((p, hp)) => {
                    &&& p < kmax
                    &&& hp == self.hasher.pilot_hash(p)
                    &&& self.is_free_under(bucket, before, hp)
                    &&& forall|q: u64|
                        q < p ==> !self.is_free_under(
                            bucket,
                            before,
                            #[trigger] self.hasher.pilot_hash(q),
                        )
                    &&& after.len() == before.len()
                    &&& forall|i: int|
                        0 <= i < bucket.len() ==> after[self.hasher.slot(#[trigger] bucket[i], hp)]
                    &&& forall|x: int|
                        0 <= x < before.len() && (forall|i: int|
                            0 <= i < bucket.len() ==> self.hasher.slot(#[trigger] bucket[i], hp)
                                != x) ==> #[trigger] after[x] == before[x]
                },
                None => {
                    &&& forall|q: u64|
                        q < kmax ==> !self.is_free_under(
                            bucket,
                            before,
                            #[trigger] self.hasher.pilot_hash(q),
                        )
                    &&& after == before
                },
            },
    {
        let choices = self.choices(bucket, kmax as int);
        assert forall|q: u64| q < kmax implies (self.is_free_under(
            bucket,
            before,
            #[trigger] self.hasher.pilot_hash(q),
        ) <==> placement::fits(choices[q as int], before)) by {
            self.lemma_take(bucket, before, self.hasher.pilot_hash(q), true);
            assert(choices[q as int] == self.bucket_slots(bucket, self.hasher.pilot_hash(q)));
        }
        match found {
            Some((p, hp)) => {
                self.lemma_take(bucket, before, hp, true);
                assert(choices[p as int] == self.bucket_slots(bucket, hp));
                assert forall|i: int| 0 <= i < bucket.len() implies after[self.hasher.slot(
                    #[trigger] bucket[i],
                    hp,
                )] by {
                    self.hasher.lemma_slot_in_part(bucket[i], hp);
                }
            },
            None => {},
        }
    }
}

} // verus!
