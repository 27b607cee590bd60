use crate::bucket_idx::BucketIdx;
use crate::hasher::PilotHasher;
use crate::laws;
use crate::placement;
use crate::placement::{Board, Chain, Failure, Table, PILOTS};
use crate::sorted_buckets::SortedBuckets;
use crate::taken::Taken;
use crate::util::has_duplicates;
use vstd::prelude::*;

verus! {

/// The shape of a perfect hash function under construction.
pub struct PtrHash<Hx: PilotHasher> {
    /// The number of slots of a part.
    pub s: usize,
    /// The number of buckets of a part.
    pub b: usize,
    /// The number of parts of a shard.
    pub parts_per_shard: usize,
    /// Sends keys to slots.
    pub hasher: Hx,
}

impl<Hx: PilotHasher> PtrHash<Hx> {
    /// The hasher is fit for use, and sends keys to the slots of a part.
    pub open spec fn valid(&self) -> bool {
        self.hasher.valid() && self.hasher.slot_count() == self.s
    }

    /// Tests [`Self::valid`].
    pub fn is_valid(&self) -> (r: bool)
        ensures
            r == self.valid(),
    {
        match self.hasher.slots() {
            Some(n) => n == self.s,
            None => false,
        }
    }

    /// The slots of the keys of `bucket` under a pilot with hash `hp`.
    pub open spec fn bucket_slots(&self, bucket: Seq<Hx::H>, hp: u64) -> Seq<int> {
        Seq::new(bucket.len(), |i: int| self.hasher.slot(bucket[i], hp))
    }

    /// The slots of the keys of `bucket` under each of the first `kmax` pilots.
    pub open spec fn choices(&self, bucket: Seq<Hx::H>, kmax: int) -> Seq<Seq<int>> {
        Seq::new(
            kmax as nat,
            |p: int| self.bucket_slots(bucket, self.hasher.pilot_hash(p as u64)),
        )
    }

    pub(crate) proof fn lemma_bucket_slots(&self, bucket: Seq<Hx::H>, hp: u64)
        requires
            self.valid(),
        ensures
            self.bucket_slots(bucket, hp).len() == bucket.len(),
            forall|i: int|
                0 <= i < bucket.len() ==> 0 <= #[trigger] self.bucket_slots(bucket, hp)[i] < self.s,
    {
        assert forall|i: int| 0 <= i < bucket.len() implies 0 <= #[trigger] self.bucket_slots(
            bucket,
            hp,
        )[i] < self.s by {
            self.hasher.lemma_slot_in_part(bucket[i], hp);
        }
    }

    /// Takes the slots of `bucket` under a pilot with hash `hp`, if they are free and no
    /// two keys of the bucket share one. Else nothing is taken, and the result is false.
    pub fn try_take_pilot(&self, bucket: &[Hx::H], hp: u64, taken: &mut Taken) -> (ok: bool)
        requires
            self.valid(),
            old(taken)@.len() >= self.s,
        ensures
            ok == placement::fits(self.bucket_slots(bucket@, hp), old(taken)@),
            final(taken)@ == if ok {
                placement::fill(old(taken)@, self.bucket_slots(bucket@, hp), true)
            } else {
                old(taken)@
            },
    {
        let ghost before = taken@;
        let ghost slots = self.bucket_slots(bucket@, hp);
        proof {
            self.lemma_bucket_slots(bucket@, hp);
            assert(taken@ =~= placement::fill(before, slots.take(0), true));
        }
        let mut i: usize = 0;
        while i < bucket.len()
            invariant
                self.valid(),
                slots == self.bucket_slots(bucket@, hp),
                slots.len() == bucket@.len(),
                forall|k: int| 0 <= k < slots.len() ==> 0 <= #[trigger] slots[k] < self.s,
                before.len() >= self.s,
                before == old(taken)@,
                0 <= i <= bucket@.len(),
                taken@ == placement::fill(before, slots.take(i as int), true),
                forall|k: int| 0 <= k < i ==> !before[#[trigger] slots[k]],
                forall|k: int, l: int| 0 <= k < l < i ==> slots[k] != slots[l],
            decreases bucket.len() - i,
        {
            let slot: usize = self.hasher.slot_in_part_hp(bucket[i], hp);
            assert(slot == slots[i as int]);
            if taken.get(slot) {
                // A collision within the bucket, or with what was taken before.
                proof {
                    if slots.take(i as int).contains(slot as int) {
                        let k = choose|k: int|
                            0 <= k < i && slots.take(i as int)[k] == slot as int;
                        assert(slots[k] == slots[i as int]);
                    } else {
                        assert(before[slots[i as int]]);
                    }
                    assert(!placement::fits(slots, before));
                }
                self.release(&bucket[0..i], hp, taken);
                proof {
                    assert(self.bucket_slots(bucket@.subrange(0, i as int), hp) =~= slots.take(
                        i as int,
                    ));
                    assert forall|x: int| slots.take(i as int).contains(x) implies !before[x] by {
                        let k = choose|k: int| 0 <= k < i && slots.take(i as int)[k] == x;
                        assert(!before[slots[k]]);
                    }
                    assert(taken@ =~= before);
                }
                return false;
            }
            taken.set(slot, true);
            proof {
                placement::lemma_fill_next(before, slots, i as int, true);
                assert forall|k: int| 0 <= k < i implies slots[k] != slots[i as int] by {
                    assert(slots.take(i as int)[k] == slots[k]);
                }
            }
            i += 1;
        }
        proof {
            assert(slots.take(i as int) =~= slots);
        }
        true
    }

    /// Frees the slots of `bucket` under a pilot with hash `hp`.
    fn release(&self, bucket: &[Hx::H], hp: u64, taken: &mut Taken)
        requires
            self.valid(),
            old(taken)@.len() >= self.s,
        ensures
            final(taken)@ == placement::fill(
                old(taken)@,
                self.bucket_slots(bucket@, hp),
                false,
            ),
    {
        let ghost before = taken@;
        let ghost slots = self.bucket_slots(bucket@, hp);
        proof {
            self.lemma_bucket_slots(bucket@, hp);
            assert(taken@ =~= placement::fill(before, slots.take(0), false));
        }
        let mut i: usize = 0;
        while i < bucket.len()
            invariant
                self.valid(),
                slots == self.bucket_slots(bucket@, hp),
                slots.len() == bucket@.len(),
                forall|k: int| 0 <= k < slots.len() ==> 0 <= #[trigger] slots[k] < self.s,
                before.len() >= self.s,
                0 <= i <= bucket@.len(),
                taken@ == placement::fill(before, slots.take(i as int), false),
            decreases bucket.len() - i,
        {
            let slot: usize = self.hasher.slot_in_part_hp(bucket[i], hp);
            assert(slot == slots[i as int]);
            taken.set(slot, false);
            proof {
                placement::lemma_fill_next(before, slots, i as int, false);
            }
            i += 1;
        }
        proof {
            assert(slots.take(i as int) =~= slots);
        }
    }

    /// Whether the slot of a key is in use.
    fn is_taken(&self, hx: Hx::H, hp: u64, taken: &Taken) -> (r: bool)
        requires
            self.valid(),
            taken@.len() >= self.s,
        ensures
            r == taken@[self.hasher.slot(hx, hp)],
    {
        proof {
            self.hasher.lemma_slot_in_part(hx, hp);
        }
        taken.get(self.hasher.slot_in_part_hp(hx, hp))
    }

    /// Whether any slot of `bucket` under a pilot with hash `hp` is in use. Four keys are
    /// looked at together, without leaving early.
    fn hits_taken(&self, bucket: &[Hx::H], hp: u64, taken: &Taken) -> (hit: bool)
        requires
            self.valid(),
            taken@.len() >= self.s,
        ensures
            hit == exists|i: int|
                0 <= i < bucket@.len() && #[trigger] taken@[self.bucket_slots(bucket@, hp)[i]],
    {
        let ghost slots = self.bucket_slots(bucket@, hp);
        proof {
            self.lemma_bucket_slots(bucket@, hp);
        }
        let r: usize = bucket.len() / 4 * 4;
        let mut i: usize = 0;
        while i < r
            invariant
                self.valid(),
                taken@.len() >= self.s,
                slots == self.bucket_slots(bucket@, hp),
                slots.len() == bucket@.len(),
                forall|k: int| 0 <= k < slots.len() ==> 0 <= #[trigger] slots[k] < self.s,
                r <= bucket@.len(),
                r % 4 == 0,
                i % 4 == 0,
                i <= r,
                forall|k: int| 0 <= k < i ==> !#[trigger] taken@[slots[k]],
            decreases r - i,
        {
            let c0: bool = self.is_taken(bucket[i], hp, taken);
            let c1: bool = self.is_taken(bucket[i + 1], hp, taken);
            let c2: bool = self.is_taken(bucket[i + 2], hp, taken);
            let c3: bool = self.is_taken(bucket[i + 3], hp, taken);
            assert(c0 == taken@[slots[i as int]]);
            assert(c1 == taken@[slots[i + 1]]);
            assert(c2 == taken@[slots[i + 2]]);
            assert(c3 == taken@[slots[i + 3]]);
            if c0 || c1 || c2 || c3 {
                return true;
            }
            i += 4;
        }
        let mut bad = false;
        while i < bucket.len()
            invariant
                self.valid(),
                taken@.len() >= self.s,
                slots == self.bucket_slots(bucket@, hp),
                slots.len() == bucket@.len(),
                forall|k: int| 0 <= k < slots.len() ==> 0 <= #[trigger] slots[k] < self.s,
                i <= bucket@.len(),
                bad == exists|k: int| 0 <= k < i && #[trigger] taken@[slots[k]],
            decreases bucket.len() - i,
        {
            let c: bool = self.is_taken(bucket[i], hp, taken);
            assert(c == taken@[slots[i as int]]);
            bad = c || bad;
            i += 1;
        }
        bad
    }

    /// Finds the first of the pilots below `kmax` under which `bucket` fits, takes its
    /// slots, and returns the pilot with its hash. If there is none, nothing is taken.
    pub fn find_pilot_slice(&self, kmax: u64, bucket: &[Hx::H], taken: &mut Taken) -> (found: Option<
        (u64, u64),
    >)
        requires
            self.valid(),
            old(taken)@.len() >= self.s,
        ensures
            self.pilot_found(kmax, bucket@, old(taken)@, final(taken)@, found),
    {
        let ghost before = taken@;
        let ghost choices = self.choices(bucket@, kmax as int);
        let mut p: u64 = 0;
        while p < kmax
            invariant
                self.valid(),
                before.len() >= self.s,
                before == old(taken)@,
                taken@ == before,
                choices == self.choices(bucket@, kmax as int),
                0 <= p <= kmax,
                forall|q: int| 0 <= q < p ==> !placement::fits(#[trigger] choices[q], before),
            decreases kmax - p,
        {
            let hp: u64 = self.hasher.hash_pilot(p);
            let ghost slots = self.bucket_slots(bucket@, hp);
            assert(choices[p as int] == slots);
            if !self.hits_taken(bucket, hp, taken) {
                if self.try_take_pilot(bucket, hp, taken) {
                    return Some((p, hp));
                }
            }
            p += 1;
        }
        None
    }

    /// `found` is the first of the pilots below `kmax` under which `bucket` fits, with its
    /// hash, and the bucket's slots were taken; or there is no such pilot, and nothing
    /// was.
    pub open spec fn pilot_found(
        &self,
        kmax: u64,
        bucket: Seq<Hx::H>,
        before: Seq<bool>,
        after: Seq<bool>,
        found: Option<(u64, u64)>,
    ) -> bool {
        let choices = self.choices(bucket, kmax as int);
        match found {
            Some((p, hp)) => {
                &&& placement::is_first_fit(choices, before, kmax as int, p as int)
                &&& hp == self.hasher.pilot_hash(p)
                &&& after == placement::fill(before, choices[p as int], true)
            },
            None => {
                &&& forall|q: int| 0 <= q < kmax ==> !placement::fits(#[trigger] choices[q], before)
                &&& after == before
            },
        }
    }

    /// [`Self::find_pilot_slice`] for a bucket of known size.
    pub fn find_pilot_array<const L: usize>(
        &self,
        kmax: u64,
        bucket: &[Hx::H; L],
        taken: &mut Taken,
    ) -> (found: Option<(u64, u64)>)
        requires
            self.valid(),
            old(taken)@.len() >= self.s,
        ensures
            self.pilot_found(kmax, bucket@, old(taken)@, final(taken)@, found),
    {
        self.find_pilot_slice(kmax, bucket.as_slice(), taken)
    }

    /// [`Self::find_pilot_slice`], where each of the usual bucket sizes has code of its
    /// own.
    pub fn find_pilot(&self, kmax: u64, bucket: &[Hx::H], taken: &mut Taken) -> (found: Option<
        (u64, u64),
    >)
        requires
            self.valid(),
            old(taken)@.len() >= self.s,
        ensures
            self.pilot_found(kmax, bucket@, old(taken)@, final(taken)@, found),
    {
        let b = bucket;
        match b.len() {
            1 => {
                let a: [Hx::H; 1] = [b[0]];
                assert(a@ =~= b@);
                self.find_pilot_array::<1>(kmax, &a, taken)
            },
            2 => {
                let a: [Hx::H; 2] = [b[0], b[1]];
                assert(a@ =~= b@);
                self.find_pilot_array::<2>(kmax, &a, taken)
            },
            3 => {
                let a: [Hx::H; 3] = [b[0], b[1], b[2]];
                assert(a@ =~= b@);
                self.find_pilot_array::<3>(kmax, &a, taken)
            },
            4 => {
                let a: [Hx::H; 4] = [b[0], b[1], b[2], b[3]];
                assert(a@ =~= b@);
                self.find_pilot_array::<4>(kmax, &a, taken)
            },
            5 => {
                let a: [Hx::H; 5] = [b[0], b[1], b[2], b[3], b[4]];
                assert(a@ =~= b@);
                self.find_pilot_array::<5>(kmax, &a, taken)
            },
            6 => {
                let a: [Hx::H; 6] = [b[0], b[1], b[2], b[3], b[4], b[5]];
                assert(a@ =~= b@);
                self.find_pilot_array::<6>(kmax, &a, taken)
            },
            7 => {
                let a: [Hx::H; 7] = [b[0], b[1], b[2], b[3], b[4], b[5], b[6]];
                assert(a@ =~= b@);
                self.find_pilot_array::<7>(kmax, &a, taken)
            },
            8 => {
                let a: [Hx::H; 8] = [b[0], b[1], b[2], b[3], b[4], b[5], b[6], b[7]];
                assert(a@ =~= b@);
                self.find_pilot_array::<8>(kmax, &a, taken)
            },
            _ => self.find_pilot_slice(kmax, b, taken),
        }
    }

    /// The slots of the buckets of a part under every pilot.
    pub open spec fn table(&self, hashes: Seq<Hx::H>, sorted: SortedBuckets) -> Table {
        Seq::new(
            sorted.count() as nat,
            |b: int| self.choices(sorted.bucket(hashes, b), PILOTS as int),
        )
    }
}

/// The last four buckets of `history` are those in `ring`, each at its position in the
/// history modulo four.
spec fn ring_ok(ring: Seq<BucketIdx>, history: Seq<BucketIdx>) -> bool {
    &&& ring.len() == 4
    &&& history.len() >= 1
    &&& forall|m: int|
        0 <= m < 4 && !(#[trigger] ring[m]).absent() ==> exists|j: int|
            history.len() - 4 <= j < history.len() && 0 <= j && j % 4 == m && #[trigger] history[j]
                == ring[m]
    &&& forall|j: int|
        history.len() - 4 <= j < history.len() && 0 <= j ==> ring[j % 4] == #[trigger] history[j]
}

/// To write a bucket over the oldest entry of the ring is to append it to the history.
proof fn lemma_ring_next(ring: Seq<BucketIdx>, history: Seq<BucketIdx>, b: BucketIdx)
    requires
        ring_ok(ring, history),
    ensures
        ring_ok(ring.update(history.len() as int % 4, b), history.push(b)),
{
    let n = history.len() as int;
    let next = ring.update(n % 4, b);
    let longer = history.push(b);
    assert forall|m: int| 0 <= m < 4 && !(#[trigger] next[m]).absent() implies exists|j: int|
        longer.len() - 4 <= j < longer.len() && 0 <= j && j % 4 == m && #[trigger] longer[j]
            == next[m] by {
        if m == n % 4 {
            assert(longer[n] == next[m]);
        } else {
            assert(!ring[m].absent());
            let j = choose|j: int|
                n - 4 <= j < n && 0 <= j && j % 4 == m && #[trigger] history[j] == ring[m];
            assert(longer[j] == next[m]);
            assert(j != n - 4);
        }
    }
    assert forall|j: int| longer.len() - 4 <= j < longer.len() && 0 <= j implies next[j % 4]
        == #[trigger] longer[j] by {
        if j < n {
            assert(ring[j % 4] == history[j]);
            assert(j % 4 != n % 4);
        }
    }
}

/// Whether `b` is in the ring.
fn in_ring(ring: &[BucketIdx; 4], b: BucketIdx, Ghost(history): Ghost<Seq<BucketIdx>>) -> (r: bool)
    requires
        ring_ok(ring@, history),
        !b.absent(),
    ensures
        r == placement::is_recent(history, b),
{
    let r = ring[0] == b || ring[1] == b || ring[2] == b || ring[3] == b;
    proof {
        if r {
            let m: int = if ring@[0] == b {
                0
            } else if ring@[1] == b {
                1
            } else if ring@[2] == b {
                2
            } else {
                3
            };
            assert(ring@[m] == b);
        }
        if placement::is_recent(history, b) {
            let j = choose|j: int|
                history.len() - 4 <= j < history.len() && 0 <= j && #[trigger] history[j] == b;
            assert(ring@[j % 4] == b);
        }
    }
    r
}

/// A part whose buckets are to be placed.
struct Part<'a, Hx: PilotHasher> {
    ph: &'a PtrHash<Hx>,
    hashes: &'a [Hx::H],
    sorted: &'a SortedBuckets,
}

impl<'a, Hx: PilotHasher> Part<'a, Hx> {
    spec fn valid(&self) -> bool {
        self.ph.valid() && self.sorted.valid(self.hashes@.len() as int)
    }

    spec fn table(&self) -> Table {
        self.ph.table(self.hashes@, *self.sorted)
    }

    /// The slots of bucket `b` under a pilot with hash `hp`.
    spec fn slots(&self, b: BucketIdx, hp: u64) -> Seq<int> {
        self.ph.bucket_slots(self.sorted.bucket(self.hashes@, b.at()), hp)
    }

    /// Every slot that is held is held by a bucket of the part that has keys.
    spec fn owners_ok(&self, owner: Seq<BucketIdx>) -> bool {
        &&& owner.len() == self.ph.s
        &&& forall|x: int|
            0 <= x < owner.len() && !(#[trigger] owner[x]).absent() ==> owner[x].at()
                < self.sorted.count() && placement::size(self.table(), owner[x].at()) > 0
    }

    proof fn lemma_table(&self)
        requires
            self.valid(),
        ensures
            placement::table_ok(self.table(), self.ph.s as int),
            laws::order_ok(self.table(), self.sorted.order@),
            self.table().len() == self.sorted.count(),
            forall|b: BucketIdx|
                b.at() < self.sorted.count() ==> #[trigger] placement::size(self.table(), b.at())
                    == self.sorted.starts@[b.at() + 1] - self.sorted.starts@[b.at()],
    {
        let t = self.table();
        assert forall|b: int, p: int| 0 <= b < t.len() && 0 <= p < PILOTS implies (
        #[trigger] t[b][p]).len() == self.sorted.starts@[b + 1] - self.sorted.starts@[b] by {
            self.ph.lemma_bucket_slots(
                self.sorted.bucket(self.hashes@, b),
                self.ph.hasher.pilot_hash(p as u64),
            );
        }
        assert forall|b: int, p: int, i: int|
            0 <= b < t.len() && 0 <= p < PILOTS && 0 <= i < t[b][p].len() implies 0
            <= #[trigger] t[b][p][i] < self.ph.s by {
            self.ph.lemma_bucket_slots(
                self.sorted.bucket(self.hashes@, b),
                self.ph.hasher.pilot_hash(p as u64),
            );
        }
    }

    proof fn lemma_slots(&self, b: BucketIdx, p: u64)
        requires
            self.valid(),
            b.at() < self.sorted.count(),
            p < PILOTS,
        ensures
            self.slots(b, self.ph.hasher.pilot_hash(p)) == self.table()[b.at()][p as int],
    {
    }

    proof fn lemma_bucket(&self, b: BucketIdx, hp: u64)
        requires
            self.valid(),
            b.at() < self.sorted.count(),
        ensures
            self.sorted.starts@[b.at()] <= self.sorted.starts@[b.at() + 1] <= self.hashes@.len(),
            self.slots(b, hp).len() == self.sorted.starts@[b.at() + 1] - self.sorted.starts@[b.at()],
            forall|i: int|
                0 <= i < self.slots(b, hp).len() ==> 0 <= #[trigger] self.slots(b, hp)[i]
                    < self.ph.s,
    {
        let last = self.sorted.starts@.len() - 1;
        assert(self.sorted.starts@[b.at() + 1] <= self.sorted.starts@[last]);
        self.ph.lemma_bucket_slots(self.sorted.bucket(self.hashes@, b.at()), hp);
    }

    /// The hashes of bucket `b`.
    fn bucket(&self, b: BucketIdx) -> (bucket: &'a [Hx::H])
        requires
            self.valid(),
            b.at() < self.sorted.count(),
        ensures
            bucket@ == self.sorted.bucket(self.hashes@, b.at()),
    {
        proof {
            self.lemma_bucket(b, 0);
        }
        self.sorted.bucket_of(self.hashes, b)
    }

    /// Whether two keys of bucket `b` share a slot under a pilot with hash `hp`.
    fn duplicate_slots(&self, b: BucketIdx, hp: u64, slots_tmp: &mut Vec<usize>) -> (r: bool)
        requires
            self.valid(),
            b.at() < self.sorted.count(),
        ensures
            r == !self.slots(b, hp).no_duplicates(),
    {
        let ghost slots = self.slots(b, hp);
        proof {
            self.lemma_bucket(b, hp);
        }
        let bucket = self.bucket(b);
        slots_tmp.clear();
        let mut i: usize = 0;
        while i < bucket.len()
            invariant
                self.ph.valid(),
                slots == self.ph.bucket_slots(bucket@, hp),
                slots.len() == bucket@.len(),
                0 <= i <= bucket@.len(),
                slots_tmp@.len() == i,
                forall|k: int| 0 <= k < i ==> slots_tmp@[k] == #[trigger] slots[k],
            decreases bucket.len() - i,
        {
            let slot: usize = self.ph.hasher.slot_in_part_hp(bucket[i], hp);
            assert(slot == slots[i as int]);
            slots_tmp.push(slot);
            i += 1;
        }
        proof {
            assert forall|k: int, l: int| 0 <= k < slots.len() && 0 <= l < slots.len() implies (
            slots_tmp@[k] == slots_tmp@[l]) == (#[trigger] slots[k] == #[trigger] slots[l]) by {}
            if slots_tmp@.no_duplicates() {
                assert forall|k: int, l: int|
                    0 <= k < slots.len() && 0 <= l < slots.len() && k != l implies slots[k]
                    != slots[l] by {
                    assert(slots_tmp@[k] != slots_tmp@[l]);
                }
            } else {
                let (k, l) = choose|k: int, l: int|
                    0 <= k < slots_tmp@.len() && 0 <= l < slots_tmp@.len() && k != l
                        && slots_tmp@[k] == slots_tmp@[l];
                assert(slots[k] == slots[l]);
            }
        }
        has_duplicates(slots_tmp)
    }

    proof fn lemma_damage_fits(&self, b: BucketIdx, hp: u64, owner: Seq<BucketIdx>)
        requires
            self.valid(),
            b.at() < self.sorted.count(),
            self.owners_ok(owner),
        ensures
            placement::damage(self.table(), owner, self.slots(b, hp)) < u128::MAX,
    {
        let t = self.table();
        let at = self.slots(b, hp);
        self.lemma_table();
        self.lemma_bucket(b, hp);
        let most: int = u32::MAX as int;
        assert forall|i: int|
            0 <= i < at.len() && !owner[#[trigger] at[i]].absent() implies placement::size(
            t,
            owner[at[i]].at(),
        ) <= most by {
            let o = owner[at[i]];
            assert(placement::size(t, o.at()) <= most);
        }
        placement::lemma_damage_bounded(t, owner, at, most);
        assert(at.len() * (most * most) <= 0xffff_ffff * (0xffff_ffff * 0xffff_ffff))
            by (nonlinear_arith)
            requires
                0 <= at.len() <= 0xffff_ffff,
                most == 0xffff_ffff,
        ;
    }

    /// The damage that bucket `b` does under a pilot with hash `hp`, if it is below
    /// `bound`, or nil, and spares the recent buckets.
    fn collision_score(
        &self,
        b: BucketIdx,
        hp: u64,
        slots: &Vec<BucketIdx>,
        recent: &[BucketIdx; 4],
        bound: u128,
        Ghost(history): Ghost<Seq<BucketIdx>>,
    ) -> (score: Option<u128>)
        requires
            self.valid(),
            b.at() < self.sorted.count(),
            self.owners_ok(slots@),
            ring_ok(recent@, history),
        ensures
            ({
                let at = self.slots(b, hp);
                let damage = placement::damage(self.table(), slots@, at);
                match score {
                    Some(d) => d == damage && (d < bound || d == 0) && !placement::hits_recent(
                        slots@,
                        at,
                        history,
                    ),
                    None => placement::hits_recent(slots@, at, history) || (damage >= bound
                        && damage > 0),
                }
            }),
    {
        let ghost t = self.table();
        let ghost at = self.slots(b, hp);
        proof {
            self.lemma_table();
            self.lemma_bucket(b, hp);
            assert(at.take(0) =~= Seq::empty());
        }
        let bucket = self.bucket(b);
        let mut score: u128 = 0;
        let mut i: usize = 0;
        while i < bucket.len()
            invariant
                self.valid(),
                b.at() < self.sorted.count(),
                self.owners_ok(slots@),
                ring_ok(recent@, history),
                t == self.table(),
                at == self.slots(b, hp),
                bucket@ == self.sorted.bucket(self.hashes@, b.at()),
                at.len() == bucket@.len(),
                at.len() <= u32::MAX,
                forall|k: int| 0 <= k < at.len() ==> 0 <= #[trigger] at[k] < self.ph.s,
                0 <= i <= bucket@.len(),
                score == placement::damage(t, slots@, at.take(i as int)),
                score == 0 || score < bound,
                score <= i * 0x1_0000_0000_0000_0000,
                forall|k: int|
                    0 <= k < i && !slots@[#[trigger] at[k]].absent() ==> !placement::is_recent(
                        history,
                        slots@[at[k]],
                    ),
            decreases bucket.len() - i,
        {
            let slot: usize = self.ph.hasher.slot_in_part_hp(bucket[i], hp);
            assert(slot == at[i as int]);
            let holder: BucketIdx = slots[slot];
            proof {
                assert(at.take(i + 1).drop_last() =~= at.take(i as int));
                placement::lemma_damage_grows(t, slots@, at, i + 1);
            }
            if holder.is_some() {
                if in_ring(recent, holder, Ghost(history)) {
                    return None;
                }
                proof {
                    self.lemma_table();
                    self.lemma_bucket(holder, 0);
                }
                let len: u128 = self.sorted.bucket_len(holder) as u128;
                proof {
                    assert(len == placement::size(t, holder.at()));
                    assert(0 < len * len < 0x1_0000_0000_0000_0000) by (nonlinear_arith)
                        requires
                            0 < len <= 0xffff_ffff,
                    ;
                }
                score = score + len * len;
                if score >= bound {
                    return None;
                }
            }
            i += 1;
        }
        proof {
            assert(at.take(i as int) =~= at);
        }
        Some(score)
    }

    /// The pilot that bucket `b` is to evict with.
    fn best_pilot(
        &self,
        b: BucketIdx,
        pilot: u8,
        goal: u128,
        slots: &Vec<BucketIdx>,
        recent: &[BucketIdx; 4],
        slots_tmp: &mut Vec<usize>,
        Ghost(c): Ghost<Chain>,
    ) -> (best: Option<u64>)
        requires
            self.valid(),
            b.at() < self.sorted.count(),
            self.owners_ok(slots@),
            ring_ok(recent@, c.history),
            c.owner == slots@,
            c.pilots[b.at()] == pilot,
        ensures
            match best {
                Some(p) => p < PILOTS && c.evicting_pilot(self.table(), goal as int, b) == Some(
                    p as int,
                ),
                None => c.evicting_pilot(self.table(), goal as int, b) is None,
            },
    {
        let ghost t = self.table();
        let first: u64 = pilot as u64 + 1;
        let mut best: Option<u64> = None;
        let mut least: u128 = u128::MAX;
        let mut delta: u64 = 0;
        while delta < PILOTS
            invariant
                self.valid(),
                b.at() < self.sorted.count(),
                self.owners_ok(slots@),
                ring_ok(recent@, c.history),
                c.owner == slots@,
                c.pilots[b.at()] == pilot,
                t == self.table(),
                first == pilot + 1,
                0 <= delta <= PILOTS,
                !c.scan(t, goal as int, b, delta as int).done,
                match best {
                    Some(p) => p < PILOTS && least < u128::MAX && c.scan(
                        t,
                        goal as int,
                        b,
                        delta as int,
                    ).best == Some((least as int, p as int)),
                    None => least == u128::MAX && c.scan(t, goal as int, b, delta as int).best
                        is None,
                },
            decreases PILOTS - delta,
        {
            let p: u64 = (first + delta) % PILOTS;
            let hp: u64 = self.ph.hasher.hash_pilot(p);
            proof {
                assert(p as int == c.candidate(b, delta as int));
                self.lemma_slots(b, p);
                self.lemma_damage_fits(b, hp, slots@);
            }
            match self.collision_score(b, hp, slots, recent, least, Ghost(c.history)) {
                Some(score) => {
                    if !self.duplicate_slots(b, hp, slots_tmp) {
                        best = Some(p);
                        least = score;
                        if score == goal {
                            proof {
                                placement::lemma_scan_done(
                                    c,
                                    t,
                                    goal as int,
                                    b,
                                    delta + 1,
                                    PILOTS as int,
                                );
                            }
                            return best;
                        }
                    }
                },
                None => {},
            }
            delta += 1;
        }
        best
    }

    /// Clears bucket `b` from the slots that it holds under pilot `p`.
    fn drop_bucket(
        &self,
        b: BucketIdx,
        p: u8,
        slots: &mut Vec<BucketIdx>,
        taken: &mut Taken,
    )
        requires
            self.valid(),
            b.at() < self.sorted.count(),
            old(slots)@.len() == self.ph.s,
            old(taken)@.len() >= self.ph.s,
        ensures
            final(slots)@ == placement::fill(
                old(slots)@,
                self.table()[b.at()][p as int],
                BucketIdx::nothing(),
            ),
            final(taken)@ == placement::fill(
                old(taken)@,
                self.table()[b.at()][p as int],
                false,
            ),
    {
        let hp: u64 = self.ph.hasher.hash_pilot(p as u64);
        let bucket = self.bucket(b);
        proof {
            self.lemma_slots(b, p as u64);
        }
        self.ph.release(bucket, hp, taken);
        self.fill_slots(b, hp, BucketIdx::none(), slots);
    }

    /// Writes `v` at the slots of bucket `b` under a pilot with hash `hp`.
    fn fill_slots(&self, b: BucketIdx, hp: u64, v: BucketIdx, slots: &mut Vec<BucketIdx>)
        requires
            self.valid(),
            b.at() < self.sorted.count(),
            old(slots)@.len() == self.ph.s,
        ensures
            final(slots)@ == placement::fill(old(slots)@, self.slots(b, hp), v),
    {
        let ghost before = slots@;
        let ghost at = self.slots(b, hp);
        let bucket = self.bucket(b);
        proof {
            self.lemma_bucket(b, hp);
            assert(slots@ =~= placement::fill(before, at.take(0), v));
        }
        let mut i: usize = 0;
        while i < bucket.len()
            invariant
                self.ph.valid(),
                at == self.ph.bucket_slots(bucket@, hp),
                at.len() == bucket@.len(),
                forall|k: int| 0 <= k < at.len() ==> 0 <= #[trigger] at[k] < self.ph.s,
                before.len() == self.ph.s,
                0 <= i <= bucket@.len(),
                slots@ == placement::fill(before, at.take(i as int), v),
            decreases bucket.len() - i,
        {
            let slot: usize = self.ph.hasher.slot_in_part_hp(bucket[i], hp);
            assert(slot == at[i as int]);
            slots[slot] = v;
            proof {
                placement::lemma_fill_next(before, at, i as int, v);
            }
            i += 1;
        }
        proof {
            assert(at.take(i as int) =~= at);
        }
    }

    /// Lets bucket `b` take over its slots under pilot `p`, and returns the number of
    /// evictions, with `displacements` counted in.
    fn evict(
        &self,
        b: BucketIdx,
        p: u64,
        displacements: usize,
        pilots: &[u8],
        slots: &mut Vec<BucketIdx>,
        taken: &mut Taken,
        stack: &mut Vec<BucketIdx>,
        Ghost(c): Ghost<Chain>,
        Ghost(order): Ghost<Seq<BucketIdx>>,
        Ghost(before): Ghost<Seq<bool>>,
    ) -> (count: usize)
        requires
            self.valid(),
            p < PILOTS,
            laws::order_ok(self.table(), order),
            c.holds(self.table(), self.ph.s as int, order, before),
            c.stack.len() > 0,
            c.stack.last() == b,
            self.table()[b.at()][p as int].no_duplicates(),
            c.count == displacements,
            displacements + self.table()[b.at()][p as int].len() <= usize::MAX,
            pilots@ == c.pilots.update(b.at(), p as u8),
            old(slots)@ == c.owner,
            old(taken)@ == c.taken,
            old(stack)@ == c.stack.drop_last(),
        ensures
            ({
                let e = c.pop().evict(self.table(), b, p as int);
                &&& final(slots)@ == e.owner
                &&& final(taken)@ == e.taken
                &&& final(stack)@ == e.stack
                &&& count == e.count
            }),
    {
        let ghost t = self.table();
        let ghost s = self.ph.s as int;
        let ghost at = t[b.at()][p as int];
        proof {
            self.lemma_table();
            assert(order.contains(c.stack[c.stack.len() - 1]));
            self.lemma_slots(b, p);
        }
        let hp: u64 = self.ph.hasher.hash_pilot(p);
        proof {
            self.lemma_bucket(b, hp);
            let none = c.pop().take_over(b, at.take(0));
            assert(at.take(0) =~= Seq::empty());
            assert(none.owner =~= c.owner);
            assert(none.taken =~= c.taken);
            assert(none.stack =~= c.stack.drop_last());
        }
        let bucket = self.bucket(b);
        let mut count: usize = displacements;
        let mut i: usize = 0;
        while i < bucket.len()
            invariant
                self.valid(),
                b.at() < self.sorted.count(),
                t == self.table(),
                s == self.ph.s,
                placement::table_ok(t, s),
                t.len() == self.sorted.count(),
                laws::order_ok(t, order),
                c.holds(t, s, order, before),
                c.stack.len() > 0,
                c.stack.last() == b,
                at.no_duplicates(),
                at == self.ph.bucket_slots(bucket@, hp),
                at.len() == bucket@.len(),
                forall|k: int| 0 <= k < at.len() ==> 0 <= #[trigger] at[k] < self.ph.s,
                c.count == displacements,
                displacements + at.len() <= usize::MAX,
                pilots@ == c.pilots.update(b.at(), p as u8),
                0 <= i <= bucket@.len(),
                count <= displacements + i,
                ({
                    let d = c.pop().take_over(b, at.take(i as int));
                    &&& slots@ == d.owner
                    &&& taken@ == d.taken
                    &&& stack@ == d.stack
                    &&& count == d.count
                }),
            decreases bucket.len() - i,
        {
            let slot: usize = self.ph.hasher.slot_in_part_hp(bucket[i], hp);
            assert(slot == at[i as int]);
            proof {
                laws::lemma_take_over_next(t, s, order, before, c, at, i as int);
            }
            let b2: BucketIdx = slots[slot];
            if b2.is_some() {
                proof {
                    let k = choose|k: int| 0 <= k < order.len() && order[k] == b2;
                    assert(!order[k].absent());
                }
                stack.push(b2);
                count += 1;
                self.drop_bucket(b2, pilots[b2.index()], slots, taken);
            }
            slots[slot] = b;
            taken.set(slot, true);
            i += 1;
        }
        proof {
            assert(at.take(i as int) =~= at);
        }
        count
    }

    /// Finds a place for bucket `new_b`, and then for the buckets that were evicted on the
    /// way. Returns the number of evictions, or why the chain was given up.
    fn place(
        &self,
        new_b: BucketIdx,
        pilots: &mut [u8],
        slots: &mut Vec<BucketIdx>,
        taken: &mut Taken,
        slots_tmp: &mut Vec<usize>,
        Ghost(m): Ghost<Board>,
        Ghost(order): Ghost<Seq<BucketIdx>>,
        Ghost(before): Ghost<Seq<bool>>,
    ) -> (count: Result<usize, Failure>)
        requires
            self.valid(),
            laws::order_ok(self.table(), order.push(new_b)),
            m.holds(self.table(), self.ph.s as int, order, before),
            placement::size(self.table(), new_b.at()) > 0,
            old(pilots)@ == m.pilots,
            old(slots)@ == m.owner,
            old(taken)@ == m.taken,
        ensures
            ({
                let len = placement::size(self.table(), new_b.at());
                let (failure, d) = m.chain(new_b).settle(self.table(), self.ph.s as int, len * len);
                &&& final(pilots)@ == d.pilots
                &&& final(slots)@ == d.owner
                &&& final(taken)@ == d.taken
                &&& match count {
                    Ok(n) => failure is None && n == d.count,
                    Err(e) => failure == Some(e),
                }
            }),
    {
        let ghost t = self.table();
        let ghost s = self.ph.s as int;
        let ghost begun = order.push(new_b);
        let ghost start = m.chain(new_b);
        proof {
            self.lemma_table();
            laws::lemma_chain_start(t, s, order, before, m, new_b);
            assert(begun[order.len() as int] == new_b);
            self.lemma_bucket(new_b, 0);
        }
        let new_b_len: u128 = self.sorted.bucket_len(new_b) as u128;
        proof {
            assert(new_b_len == placement::size(t, new_b.at()));
            assert(0 < new_b_len * new_b_len < 0x1_0000_0000_0000_0000) by (nonlinear_arith)
                requires
                    0 < new_b_len <= 0xffff_ffff,
            ;
        }
        let goal: u128 = new_b_len * new_b_len;
        let mut displacements: usize = 0;
        let mut stack: Vec<BucketIdx> = Vec::new();
        stack.push(new_b);
        let none: BucketIdx = BucketIdx::none();
        let mut recent: [BucketIdx; 4] = [new_b, none, none, none];
        let mut recent_idx: usize = 0;
        let ghost mut history: Seq<BucketIdx> = seq![new_b];
        proof {
            assert(stack@ =~= seq![new_b]);
            assert(ring_ok(recent@, history)) by {
                assert(history[0] == new_b);
                assert(recent@[0] == new_b);
            }
        }
        while stack.len() > 0
            invariant
                self.valid(),
                t == self.table(),
                s == self.ph.s,
                placement::table_ok(t, s),
                t.len() == self.sorted.count(),
                laws::order_ok(t, begun),
                start == m.chain(new_b),
                goal == placement::size(t, new_b.at()) * placement::size(t, new_b.at()),
                ring_ok(recent@, history),
                recent_idx == (history.len() - 1) % 4,
                ({
                    let c = (Chain {
                        pilots: pilots@,
                        owner: slots@,
                        taken: taken@,
                        stack: stack@,
                        history,
                        count: displacements as int,
                    });
                    &&& c.holds(t, s, begun, before)
                    &&& c.settle(t, s, goal as int) == start.settle(t, s, goal as int)
                }),
            decreases usize::MAX - displacements, stack@.len(),
        {
            let ghost c = Chain {
                pilots: pilots@,
                owner: slots@,
                taken: taken@,
                stack: stack@,
                history,
                count: displacements as int,
            };
            let b: BucketIdx = match stack.pop() {
                Some(b) => b,
                None => new_b,
            };
            proof {
                assert(b == c.stack.last());
                assert(stack@ =~= c.stack.drop_last());
                assert(begun.contains(c.stack[c.stack.len() - 1]));
                let k = choose|k: int| 0 <= k < begun.len() && begun[k] == b;
                assert(!begun[k].absent());
                self.lemma_bucket(b, 0);
            }
            if displacements > self.ph.s && displacements.is_power_of_two() && displacements / 10
                >= self.ph.s {
                return Err(Failure::TooManyDisplacements);
            }
            let bucket = self.bucket(b);
            assert(t[b.at()] == self.ph.choices(bucket@, PILOTS as int));
            match self.ph.find_pilot(PILOTS, bucket, taken) {
                Some((p, hp)) => {
                    proof {
                        placement::lemma_first_fit(t[b.at()], c.taken, p as int);
                        laws::lemma_occupy(t, s, begun, before, c, p as int);
                        self.lemma_slots(b, p);
                    }
                    pilots[b.index()] = p as u8;
                    self.fill_slots(b, hp, b, slots);
                    assert(c.pop().occupy(t, b, p as int) == (Chain {
                        pilots: pilots@,
                        owner: slots@,
                        taken: taken@,
                        stack: stack@,
                        history,
                        count: displacements as int,
                    }));
                },
                None => {
                    proof {
                        assert(placement::first_fit(t[b.at()], c.taken) is None);
                        assert(self.owners_ok(slots@)) by {
                            assert forall|x: int|
                                0 <= x < slots@.len() && !(#[trigger] slots@[x]).absent() implies slots@[x].at()
                                < self.sorted.count() && placement::size(t, slots@[x].at()) > 0 by {
                                let o = c.owner[x];
                                let k = choose|k: int| 0 <= k < begun.len() && begun[k] == o;
                                assert(!begun[k].absent());
                                assert(laws::slots_of(t, c.pilots, o).contains(x));
                                assert(t[o.at()][c.pilots[o.at()] as int].len() == t[o.at()][0].len());
                            }
                        }
                    }
                    let best: Option<u64> = self.best_pilot(
                        b,
                        pilots[b.index()],
                        goal,
                        slots,
                        &recent,
                        slots_tmp,
                        Ghost(c.pop()),
                    );
                    match best {
                        Some(p) => {
                            proof {
                                laws::lemma_scan_picks(c.pop(), t, goal as int, b, PILOTS as int);
                                assert(t[b.at()][p as int].len() == bucket@.len());
                            }
                            if bucket.len() > usize::MAX - displacements {
                                return Err(Failure::TooManyDisplacements);
                            }
                            proof {
                                laws::lemma_evict(t, s, begun, before, c, p as int);
                            }
                            pilots[b.index()] = p as u8;
                            displacements = self.evict(
                                b,
                                p,
                                displacements,
                                pilots,
                                slots,
                                taken,
                                &mut stack,
                                Ghost(c),
                                Ghost(begun),
                                Ghost(before),
                            );
                            proof {
                                lemma_ring_next(recent@, history, b);
                                history = history.push(b);
                            }
                            recent_idx = (recent_idx + 1) % 4;
                            recent[recent_idx] = b;
                        },
                        None => {
                            return Err(Failure::Indistinguishable(b));
                        },
                    }
                },
            }
        }
        Ok(displacements)
    }
}

impl<Hx: PilotHasher> PtrHash<Hx> {
    /// Finds a pilot for each bucket of a part, in the given order, and returns how often a
    /// bucket was evicted on the way, or why a bucket was given up.
    ///
    /// On success no two keys of the part share a slot.
    pub fn try_displace_part(
        &self,
        hashes: &[Hx::H],
        sorted: &SortedBuckets,
        pilots: &mut [u8],
        taken: &mut Taken,
    ) -> (total: Result<usize, Failure>)
        requires
            self.valid(),
            sorted.valid(hashes@.len() as int),
            old(pilots)@.len() >= sorted.count(),
            old(taken)@.len() >= self.s,
        ensures
            ({
                let m = self.displaced(hashes@, *sorted, old(pilots)@, old(taken)@);
                &&& final(pilots)@ == m.pilots
                &&& final(taken)@ == m.taken
                &&& match total {
                    Ok(n) => m.ok() && n == m.total,
                    Err(e) => m.failure == Some(e),
                }
            }),
            final(pilots)@.len() == old(pilots)@.len(),
            final(taken)@.len() == old(taken)@.len(),
            total is Ok ==> {
                let t = self.table(hashes@, *sorted);
                &&& laws::is_perfect(t, final(pilots)@, sorted.order@)
                &&& laws::marks_slots(
                    t,
                    final(pilots)@,
                    sorted.order@,
                    old(taken)@,
                    final(taken)@,
                )
            },
    {
        let part = Part { ph: self, hashes, sorted };
        let ghost t = part.table();
        let ghost s = self.s as int;
        let ghost order = sorted.order@;
        let ghost before = taken@;
        let ghost first_pilots = pilots@;
        let ghost start = Board::start(s, pilots@, taken@);
        proof {
            part.lemma_table();
            assert(!order[0].absent());
            part.lemma_bucket(order[0], 0);
        }
        let mut slots: Vec<BucketIdx> = vec![BucketIdx::none(); self.s];
        let mut slots_tmp: Vec<usize> = Vec::with_capacity(sorted.bucket_len(sorted.order[0]));
        let mut total: usize = 0;
        let mut i: usize = 0;
        proof {
            assert(order.take(0) =~= Seq::empty());
            assert(slots@ =~= start.owner);
        }
        while i < sorted.order.len()
            invariant
                part.valid(),
                part.ph == self,
                part.hashes == hashes,
                part.sorted == sorted,
                t == part.table(),
                s == self.s,
                order == sorted.order@,
                before == old(taken)@,
                first_pilots == old(pilots)@,
                start == Board::start(s, first_pilots, before),
                before.len() >= s,
                first_pilots.len() >= t.len(),
                placement::table_ok(t, s),
                laws::order_ok(t, order),
                t.len() == sorted.count(),
                0 <= i <= order.len(),
                start.add_all(t, s, order.take(i as int)) == (Board {
                    pilots: pilots@,
                    owner: slots@,
                    taken: taken@,
                    total: total as int,
                    failure: None,
                }),
            decreases sorted.order.len() - i,
        {
            let new_b: BucketIdx = sorted.order[i];
            let ghost m = start.add_all(t, s, order.take(i as int));
            proof {
                assert(!order[i as int].absent());
                part.lemma_table();
                part.lemma_bucket(new_b, 0);
                laws::lemma_order_prefix(t, order, i as int);
                laws::lemma_order_prefix(t, order, i + 1);
                laws::lemma_add_all(t, s, order.take(i as int), first_pilots, before);
                assert(order.take(i + 1) =~= order.take(i as int).push(new_b));
                assert(order.take(i + 1).drop_last() =~= order.take(i as int));
            }
            if sorted.bucket_len(new_b) == 0 {
                assert(placement::size(t, new_b.at()) == 0);
                pilots[new_b.index()] = 0;
                i += 1;
                continue;
            }
            assert(placement::size(t, new_b.at()) > 0);
            let placed: Result<usize, Failure> = part.place(
                new_b,
                pilots,
                &mut slots,
                taken,
                &mut slots_tmp,
                Ghost(m),
                Ghost(order.take(i as int)),
                Ghost(before),
            );
            let sum: Result<usize, Failure> = match placed {
                Ok(displacements) => match total.checked_add(displacements) {
                    Some(n) => Ok(n),
                    None => Err(Failure::TooManyDisplacements),
                },
                Err(e) => Err(e),
            };
            match sum {
                Ok(n) => {
                    total = n;
                },
                Err(e) => {
                    proof {
                        placement::lemma_add_all_stops(start, t, s, order, i + 1);
                        laws::lemma_add_all_len(t, s, order, first_pilots, before);
                    }
                    return Err(e);
                },
            }
            i += 1;
        }
        proof {
            assert(order.take(i as int) =~= order);
            laws::lemma_add_all_len(t, s, order, first_pilots, before);
            laws::lemma_perfect(t, s, order, first_pilots, before);
        }
        Ok(total)
    }

    /// [`Self::try_displace_part`], without the reason why a bucket was given up.
    pub fn displace_part(
        &self,
        hashes: &[Hx::H],
        sorted: &SortedBuckets,
        pilots: &mut [u8],
        taken: &mut Taken,
    ) -> (total: Option<usize>)
        requires
            self.valid(),
            sorted.valid(hashes@.len() as int),
            old(pilots)@.len() >= sorted.count(),
            old(taken)@.len() >= self.s,
        ensures
            ({
                let m = self.displaced(hashes@, *sorted, old(pilots)@, old(taken)@);
                &&& final(pilots)@ == m.pilots
                &&& final(taken)@ == m.taken
                &&& match total {
                    Some(n) => m.ok() && n == m.total,
                    None => !m.ok(),
                }
            }),
            final(pilots)@.len() == old(pilots)@.len(),
            final(taken)@.len() == old(taken)@.len(),
            total is Some ==> {
                let t = self.table(hashes@, *sorted);
                &&& laws::is_perfect(t, final(pilots)@, sorted.order@)
                &&& laws::marks_slots(
                    t,
                    final(pilots)@,
                    sorted.order@,
                    old(taken)@,
                    final(taken)@,
                )
            },
    {
        match self.try_displace_part(hashes, sorted, pilots, taken) {
            Ok(n) => Some(n),
            Err(_) => None,
        }
    }

    /// The outcome of the search for the pilots of a part.
    pub open spec fn displaced(
        &self,
        hashes: Seq<Hx::H>,
        sorted: SortedBuckets,
        pilots: Seq<u8>,
        taken: Seq<bool>,
    ) -> Board {
        Board::start(self.s as int, pilots, taken).add_all(
            self.table(hashes, sorted),
            self.s as int,
            sorted.order@,
        )
    }

    /// The slot of the key with number `k` of the part, which is in bucket `b`.
    pub open spec fn key_slot(
        &self,
        hashes: Seq<Hx::H>,
        pilots: Seq<u8>,
        b: BucketIdx,
        k: int,
    ) -> int {
        self.hasher.slot(hashes[k], self.hasher.pilot_hash(pilots[b.at()] as u64))
    }

    /// Whether the key with number `k` of the part is in bucket `b`, and the bucket is one
    /// of those to be placed.
    pub open spec fn key_in(&self, sorted: SortedBuckets, b: BucketIdx, k: int) -> bool {
        &&& sorted.order@.contains(b)
        &&& sorted.starts@[b.at()] <= k < sorted.starts@[b.at() + 1]
    }

    /// **No collisions.** Under the pilots of a perfect hash function, two keys of the part
    /// never have the same slot, and every slot is one of the part's.
    pub proof fn lemma_keys_apart(
        &self,
        hashes: Seq<Hx::H>,
        sorted: SortedBuckets,
        pilots: Seq<u8>,
        b: BucketIdx,
        k: int,
        c: BucketIdx,
        l: int,
    )
        requires
            self.valid(),
            sorted.valid(hashes.len() as int),
            laws::is_perfect(self.table(hashes, sorted), pilots, sorted.order@),
            self.key_in(sorted, b, k),
            self.key_in(sorted, c, l),
            k != l,
        ensures
            self.key_slot(hashes, pilots, b, k) != self.key_slot(hashes, pilots, c, l),
            0 <= self.key_slot(hashes, pilots, b, k) < self.s,
    {
        let t = self.table(hashes, sorted);
        self.lemma_key_slot(hashes, sorted, pilots, b, k);
        self.lemma_key_slot(hashes, sorted, pilots, c, l);
        let i = k - sorted.starts@[b.at()];
        let j = l - sorted.starts@[c.at()];
        if b == c {
            assert(laws::slots_of(t, pilots, b).no_duplicates());
        } else {
            assert(laws::slots_of(t, pilots, b)[i] != laws::slots_of(t, pilots, c)[j]);
        }
        self.hasher.lemma_slot_in_part(
            hashes[k],
            self.hasher.pilot_hash(pilots[b.at()] as u64),
        );
    }

    proof fn lemma_key_slot(
        &self,
        hashes: Seq<Hx::H>,
        sorted: SortedBuckets,
        pilots: Seq<u8>,
        b: BucketIdx,
        k: int,
    )
        requires
            sorted.valid(hashes.len() as int),
            self.key_in(sorted, b, k),
        ensures
            ({
                let slots = laws::slots_of(self.table(hashes, sorted), pilots, b);
                let i = k - sorted.starts@[b.at()];
                0 <= i < slots.len() && slots[i] == self.key_slot(hashes, pilots, b, k)
            }),
    {
        let n = choose|n: int| 0 <= n < sorted.order@.len() && sorted.order@[n] == b;
        assert(!sorted.order@[n].absent());
        assert(sorted.starts@[b.at() + 1] <= sorted.starts@[sorted.starts@.len() - 1]);
    }
}

} // verus!
