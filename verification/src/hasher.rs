use vstd::prelude::*;

verus! {

/// How the keys of a part are sent to slots.
///
/// A key is known by its hash alone. A pilot is hashed once for a whole bucket, and the
/// result is combined with the hash of each key of the bucket to give the key's slot.
pub trait PilotHasher {
    /// The hash of a key.
    type H: Copy;

    /// Whether the hasher is fit for use.
    spec fn valid(&self) -> bool;

    /// The number of slots of a part.
    spec fn slot_count(&self) -> int;

    /// The hash of pilot `p`.
    spec fn pilot_hash(&self, p: u64) -> u64;

    /// The slot of a key with hash `hx` under a pilot with hash `hp`.
    spec fn slot(&self, hx: Self::H, hp: u64) -> int;

    /// Every slot lies in the part.
    proof fn lemma_slot_in_part(&self, hx: Self::H, hp: u64)
        requires
            self.valid(),
        ensures
            0 <= self.slot(hx, hp) < self.slot_count() <= usize::MAX,
    ;

    /// The number of slots of a part, if the hasher is fit for use.
    fn slots(&self) -> (n: Option<usize>)
        ensures
            match n {
                Some(n) => self.valid() && n == self.slot_count(),
                None => !self.valid(),
            },
    ;

    /// Hashes a pilot.
    fn hash_pilot(&self, p: u64) -> (hp: u64)
        requires
            self.valid(),
        ensures
            hp == self.pilot_hash(p),
    ;

    /// The slot of a key, from the key's hash and the pilot's.
    fn slot_in_part_hp(&self, hx: Self::H, hp: u64) -> (slot: usize)
        requires
            self.valid(),
        ensures
            slot == self.slot(hx, hp),
    ;
}

/// The odd constant that pilots are multiplied by.
pub const PILOT_FACTOR: u64 = 0x517c_c1b7_2722_0a95;

/// Hashes of 64 bits, reduced to a slot by the remainder modulo the number of slots.
#[derive(Clone, Copy, Debug, PartialEq, Eq, Structural)]
pub struct RemHasher {
    /// Mixed into every pilot.
    pub seed: u64,
    /// The number of slots of a part.
    pub s: usize,
}

impl PilotHasher for RemHasher {
    type H = u64;

    open spec fn valid(&self) -> bool {
        self.s > 0
    }

    open spec fn slot_count(&self) -> int {
        self.s as int
    }

    open spec fn pilot_hash(&self, p: u64) -> u64 {
        ((PILOT_FACTOR * (p ^ self.seed)) % 0x1_0000_0000_0000_0000) as u64
    }

    open spec fn slot(&self, hx: u64, hp: u64) -> int {
        (hx ^ hp) as int % self.s as int
    }

    proof fn lemma_slot_in_part(&self, hx: u64, hp: u64) {
    }

    fn slots(&self) -> (n: Option<usize>) {
        if self.s > 0 {
            Some(self.s)
        } else {
            None
        }
    }

    fn hash_pilot(&self, p: u64) -> (hp: u64) {
        PILOT_FACTOR.wrapping_mul(p ^ self.seed)
    }

    fn slot_in_part_hp(&self, hx: u64, hp: u64) -> (slot: usize) {
        let mixed: u128 = (hx ^ hp) as u128;
        (mixed % self.s as u128) as usize
    }
}

impl RemHasher {
    /// The slot of a key differs from what its hash and the pilot's have apart by a multiple
    /// of the number of slots, and is below that number.
    pub proof fn lemma_slot(&self, hx: u64, hp: u64)
        requires
            self.s > 0,
        ensures
            self.valid(),
            self.slot_count() == self.s,
            0 <= self.slot(hx, hp) < self.s,
            ((hx ^ hp) - self.slot(hx, hp)) % self.s as int == 0,
    {
        let n = (hx ^ hp) as int;
        let s = self.s as int;
        vstd::arithmetic::div_mod::lemma_fundamental_div_mod(n, s);
        vstd::arithmetic::div_mod::lemma_mod_multiples_basic(n / s, s);
        assert(n - n % s == (n / s) * s) by (nonlinear_arith)
            requires
                n == s * (n / s) + n % s,
        ;
    }

    /// The hash of a pilot, times the inverse of the odd factor, gives the pilot back, mixed
    /// with the seed.
    pub proof fn lemma_pilot_hash(&self, p: u64)
        ensures
            (self.pilot_hash(p) * 0x2040_003d_7809_70bd) % 0x1_0000_0000_0000_0000 == p ^ self.seed,
    {
        let x = (p ^ self.seed) as int;
        let range: int = 0x1_0000_0000_0000_0000;
        let inverse: int = 0x2040_003d_7809_70bd;
        let factor: int = 0x517c_c1b7_2722_0a95;
        vstd::arithmetic::div_mod::lemma_mul_mod_noop_left(factor * x, inverse, range);
        assert((factor * x) * inverse == x + (739706870995725965 * x) * range) by (nonlinear_arith)
            requires
                factor == 0x517c_c1b7_2722_0a95,
                inverse == 0x2040_003d_7809_70bd,
                range == 0x1_0000_0000_0000_0000,
        ;
        assert((x + (739706870995725965 * x) * range) % range == x);
    }

    /// No two pilots have the same hash.
    pub proof fn lemma_pilots_differ(&self, p: u64, q: u64)
        requires
            p != q,
        ensures
            self.pilot_hash(p) != self.pilot_hash(q),
    {
        let seed = self.seed;
        self.lemma_pilot_hash(p);
        self.lemma_pilot_hash(q);
        assert(p ^ seed != q ^ seed) by (bit_vector)
            requires
                p != q,
        ;
    }
}

} // verus!
