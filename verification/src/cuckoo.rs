//! A standard `(2, 4)` bucketed cuckoo filter.
//!
//! Each key is stored as a fingerprint in one of two buckets of four slots; the
//! buckets of a fingerprint are paired by xor with an offset derived from the
//! fingerprint, so a fingerprint can move between them without its key.
use vstd::prelude::*;
use vstd::multiset::Multiset;
use vstd::arithmetic::power2::pow2;
use crate::hash::{hash, hash_key, mix, mix_spec};
use crate::rounding::{
    ceil_of_nearest_double,
    ceil_of_nearest_double_u128,
    nearest_double,
    nearest_double_u128,
};
use crate::packed::{
    PackedSlots,
    fit_width,
    width_mask,
    words_for,
    relocations_undoable,
    lemma_relocation_push,
    lemma_relocation_undo,
};

verus! {

pub const BUCKET_SIZE: usize = 4;

pub const DEFAULT_MAX_KICKS: usize = 10_000;

pub const FINGERPRINT_SEED: u64 = 0xa4093822299f31d0;

pub const BUCKET_SEED: u64 = 0x082efa98ec4e6c89;

pub const ALTERNATE_SALT: u64 = 0x452821e638d01377;

pub const RNG_SEED: u64 = 0x6a09e667f3bcc909;

/// One step of the xorshift64 generator.
pub open spec fn xorshift(x: u64) -> u64 {
    let a = x ^ (x << 13u64);
    let b = a ^ (a >> 7u64);
    b ^ (b << 17u64)
}

/// `n` steps of the xorshift64 generator.
pub open spec fn xorshift_iter(x: u64, n: nat) -> u64
    decreases n,
{
    if n == 0 {
        x
    } else {
        xorshift(xorshift_iter(x, (n - 1) as nat))
    }
}

/// A power of two: exactly one bit set.
pub open spec fn is_power_of_two(n: usize) -> bool {
    n > 0 && n & ((n - 1) as usize) == 0
}

/// Doubling `p` until it reaches at least `m`.
pub open spec fn double_until(m: nat, p: nat) -> nat
    decreases (if p < m {
        m - p
    } else {
        0
    }),
    when p > 0
{
    if p >= m {
        p
    } else {
        double_until(m, 2 * p)
    }
}

/// The least power of two that is at least `m`.
pub open spec fn next_power_of_two(m: nat) -> nat {
    double_until(m, 1)
}

/// The design load `0.95` as the nearest binary64 value: this numerator over `2^52`.
pub const LOAD_NUMERATOR: u128 = 4278419646001971;

/// Slots needed to hold `capacity` keys at a 95% load: the binary64 quotient of
/// `capacity` (as the nearest binary64 value) by `0.95`, rounded up.
pub open spec fn required_slots(capacity: nat) -> nat {
    ceil_of_nearest_double(nearest_double(capacity) * 0x10_0000_0000_0000, LOAD_NUMERATOR as nat)
}

/// Slots needed to hold `capacity` keys at a 95% load: `required_slots(capacity)`.
pub fn slots_required(capacity: usize) -> (n: u128)
    ensures
        n == required_slots(capacity as nat),
        n <= 0x8_0000_0000_0000_0000 + 2,
{
    let x = nearest_double_u128(capacity as u128);
    let num = x * 0x10_0000_0000_0000;
    let required = ceil_of_nearest_double_u128(num, LOAD_NUMERATOR);
    proof {
        vstd::arithmetic::div_mod::lemma_div_is_ordered_by_denominator(
            num as int,
            0x8_0000_0000_0000,
            LOAD_NUMERATOR as int,
        );
    }
    required
}

/// Buckets needed for `required_slots`, at least two.
pub open spec fn min_bucket_count(capacity: nat) -> nat {
    let wanted = (required_slots(capacity) + 3) / 4;
    if wanted < 2 {
        2
    } else {
        wanted as nat
    }
}

/// The bucket count chosen for a capacity.
pub open spec fn bucket_count_for(capacity: nat) -> nat {
    next_power_of_two(min_bucket_count(capacity))
}

/// A key's fingerprint: `bits` bits of its hash, never zero.
pub open spec fn fingerprint_of(key: &str, bits: nat) -> u32 {
    let masked = hash_key(key, FINGERPRINT_SEED) & width_mask(bits);
    if masked == 0 {
        1
    } else {
        masked as u32
    }
}

/// A key's first bucket.
pub open spec fn first_bucket_of(key: &str, bucket_count: usize) -> usize {
    (hash_key(key, BUCKET_SEED) as usize) & ((bucket_count - 1) as usize)
}

/// The xor offset between the two buckets of a fingerprint: never zero.
pub open spec fn bucket_offset(fingerprint: u32, bucket_count: usize) -> usize {
    let offset = (mix_spec((fingerprint as u64) ^ ALTERNATE_SALT) as usize) & ((bucket_count
        - 1) as usize);
    if offset == 0 {
        1
    } else {
        offset
    }
}

/// The other bucket of a fingerprint stored in `bucket`.
pub open spec fn alternate_bucket(bucket: usize, fingerprint: u32, bucket_count: usize) -> usize {
    bucket ^ bucket_offset(fingerprint, bucket_count)
}

/// The smaller bucket of the pair that `bucket` belongs to for `fingerprint`.
pub open spec fn canonical_bucket(bucket: usize, fingerprint: u32, bucket_count: usize) -> usize {
    let other = alternate_bucket(bucket, fingerprint, bucket_count);
    if bucket <= other {
        bucket
    } else {
        other
    }
}

/// Index of slot `offset` of `bucket`.
pub open spec fn slot_index(bucket: usize, offset: int) -> int {
    bucket * 4 + offset
}

/// Some slot of `bucket` holds `value`.
pub open spec fn bucket_holds(slots: Seq<u32>, bucket: usize, value: u32) -> bool {
    exists|o: int| 0 <= o < 4 && slots[#[trigger] slot_index(bucket, o)] == value
}

/// The first empty slot offset of `bucket`, or 4 when the bucket is full.
pub open spec fn first_free_offset(slots: Seq<u32>, bucket: usize) -> int {
    if slots[slot_index(bucket, 0)] == 0 {
        0
    } else if slots[slot_index(bucket, 1)] == 0 {
        1
    } else if slots[slot_index(bucket, 2)] == 0 {
        2
    } else if slots[slot_index(bucket, 3)] == 0 {
        3
    } else {
        4
    }
}

/// The relocation walk that starts with `carried` in hand at the full `bucket`,
/// the generator at `rng`, and at most `kicks` relocations left: each relocation
/// advances the generator, swaps `carried` into the slot of `bucket` that the new
/// generator state picks, and takes the displaced fingerprint to its other bucket,
/// where it goes into the first empty slot if there is one. The result is whether
/// a slot was found, the slots when it was, and the number of relocations made.
pub open spec fn relocation_walk(
    slots: Seq<u32>,
    bucket: usize,
    carried: u32,
    rng: u64,
    kicks: nat,
    bucket_count: usize,
) -> (bool, Seq<u32>, nat)
    decreases kicks,
{
    if kicks == 0 {
        (false, slots, 0)
    } else {
        let r = xorshift(rng);
        let slot = slot_index(bucket, ((r as usize) % 4) as int);
        let displaced = slots[slot];
        let after = slots.update(slot, carried);
        let next = alternate_bucket(bucket, displaced, bucket_count);
        if bucket_holds(after, next, 0) {
            (true, after.update(slot_index(next, first_free_offset(after, next)), displaced), 1)
        } else {
            let rest = relocation_walk(after, next, displaced, r, (kicks - 1) as nat, bucket_count);
            (rest.0, rest.1, rest.2 + 1)
        }
    }
}

/// What slot `slot` holding `value` contributes to the stored entries.
pub open spec fn slot_entry(value: u32, slot: int, bucket_count: usize) -> Multiset<(u32, usize)> {
    if value == 0 {
        Multiset::empty()
    } else {
        Multiset::singleton((value, canonical_bucket((slot / 4) as usize, value, bucket_count)))
    }
}

/// The stored entries: each nonzero slot as its fingerprint and its bucket pair.
#[verifier::opaque]
pub open spec fn entries_of(slots: Seq<u32>, bucket_count: usize) -> Multiset<(u32, usize)>
    decreases slots.len(),
{
    if slots.len() == 0 {
        Multiset::empty()
    } else {
        entries_of(slots.drop_last(), bucket_count).add(
            slot_entry(slots.last(), slots.len() - 1, bucket_count),
        )
    }
}

/// The abstract state of a cuckoo filter.
pub struct CuckooView {
    /// The fingerprint in each slot, zero for an empty slot; slot `i` is in bucket `i / 4`.
    pub slots: Seq<u32>,
    pub bucket_count: usize,
    pub fingerprint_bits: nat,
    /// Number of stored fingerprints.
    pub len: nat,
    /// State of the relocation generator.
    pub rng: u64,
    pub max_kicks: nat,
}

impl CuckooView {
    /// The stored entries.
    pub open spec fn entries(self) -> Multiset<(u32, usize)> {
        entries_of(self.slots, self.bucket_count)
    }

    pub open spec fn fingerprint(self, key: &str) -> u32 {
        fingerprint_of(key, self.fingerprint_bits)
    }

    pub open spec fn first_bucket(self, key: &str) -> usize {
        first_bucket_of(key, self.bucket_count)
    }

    pub open spec fn second_bucket(self, key: &str) -> usize {
        alternate_bucket(self.first_bucket(key), self.fingerprint(key), self.bucket_count)
    }

    /// The entry a key is stored as.
    pub open spec fn key_entry(self, key: &str) -> (u32, usize) {
        (
            self.fingerprint(key),
            canonical_bucket(self.first_bucket(key), self.fingerprint(key), self.bucket_count),
        )
    }

    /// A key is reported present when its entry is stored.
    pub open spec fn contains(self, key: &str) -> bool {
        self.entries().contains(self.key_entry(key))
    }

    /// One of the key's two buckets has an empty slot.
    pub open spec fn has_room(self, key: &str) -> bool {
        bucket_holds(self.slots, self.first_bucket(key), 0) || bucket_holds(
            self.slots,
            self.second_bucket(key),
            0,
        )
    }

    /// The bucket the relocation walk starts at: the first or the second bucket,
    /// by the low bit of the next generator state.
    pub open spec fn walk_start(self, key: &str) -> usize {
        if xorshift(self.rng) & 1u64 == 0 {
            self.first_bucket(key)
        } else {
            self.second_bucket(key)
        }
    }

    /// The relocation walk an insertion of `key` makes when both of its buckets are full.
    pub open spec fn walk(self, key: &str) -> (bool, Seq<u32>, nat) {
        relocation_walk(
            self.slots,
            self.walk_start(key),
            self.fingerprint(key),
            xorshift(self.rng),
            self.max_kicks,
            self.bucket_count,
        )
    }

    /// Same geometry and limits.
    pub open spec fn same_config(self, other: CuckooView) -> bool {
        &&& self.bucket_count == other.bucket_count
        &&& self.fingerprint_bits == other.fingerprint_bits
        &&& self.max_kicks == other.max_kicks
        &&& self.slots.len() == other.slots.len()
    }

    /// `after` is `self` with `key` inserted: its entry added, fingerprints
    /// possibly relocated, the count one larger.
    pub open spec fn inserted(self, after: CuckooView, key: &str) -> bool {
        &&& after.same_config(self)
        &&& after.entries() == self.entries().insert(self.key_entry(key))
        &&& after.len == self.len + 1
    }

    /// Candidate slot `j` of a key: slots `0 .. 4` of its first bucket, then those
    /// of its second bucket.
    pub open spec fn candidate_slot(self, key: &str, j: int) -> int {
        if j < 4 {
            slot_index(self.first_bucket(key), j)
        } else {
            slot_index(self.second_bucket(key), j - 4)
        }
    }

    /// Candidate `j` is the first of the key's eight candidate slots that holds `value`.
    pub open spec fn first_candidate_with(self, key: &str, j: int, value: u32) -> bool {
        &&& 0 <= j < 8
        &&& self.slots[self.candidate_slot(key, j)] == value
        &&& forall|i: int| 0 <= i < j ==> self.slots[#[trigger] self.candidate_slot(key, i)] != value
    }

    /// `after` is `self` with the key's fingerprint put in the first empty candidate slot.
    pub open spec fn filled_first_free(self, after: CuckooView, key: &str) -> bool {
        exists|j: int|
            #[trigger] self.first_candidate_with(key, j, 0) && after.slots == self.slots.update(
                self.candidate_slot(key, j),
                self.fingerprint(key),
            )
    }

    /// `after` is `self` with candidate `j` of the key, the first that holds the
    /// key's fingerprint, emptied.
    pub open spec fn cleared_at(self, after: CuckooView, key: &str, j: int) -> bool {
        &&& self.first_candidate_with(key, j, self.fingerprint(key))
        &&& after.slots == self.slots.update(self.candidate_slot(key, j), 0)
    }

    /// `after` is `self` with the key's entry removed from one of its slots.
    pub open spec fn deleted(self, after: CuckooView, key: &str) -> bool {
        &&& after.same_config(self)
        &&& after.entries() == self.entries().remove(self.key_entry(key))
        &&& after.len == self.len - 1
        &&& exists|j: int| #[trigger] self.cleared_at(after, key, j)
    }
}

/// A standard `(2, 4)` bucketed cuckoo filter.
#[derive(Clone, Debug)]
pub struct CuckooFilter {
    slots: PackedSlots,
    bucket_count: usize,
    fingerprint_bits: u8,
    len: usize,
    rng: u64,
    max_kicks: usize,
}

impl View for CuckooFilter {
    type V = CuckooView;

    closed spec fn view(&self) -> CuckooView {
        CuckooView {
            slots: self.slots@,
            bucket_count: self.bucket_count,
            fingerprint_bits: self.fingerprint_bits as nat,
            len: self.len as nat,
            rng: self.rng,
            max_kicks: self.max_kicks as nat,
        }
    }
}

impl CuckooFilter {
    /// The slot storage matches the geometry.
    pub closed spec fn storage_wf(&self) -> bool {
        &&& self.slots.wf()
        &&& self.slots@.len() == self.bucket_count * 4
        &&& self.bucket_count * 4 <= usize::MAX
        &&& self.slots.width() == self.fingerprint_bits
        &&& 4 <= self.fingerprint_bits <= 32
        &&& is_power_of_two(self.bucket_count)
        &&& self.bucket_count >= 2
        &&& self.max_kicks > 0
    }

    /// The storage matches the geometry and the count matches the stored entries.
    pub closed spec fn wf(&self) -> bool {
        &&& self.storage_wf()
        &&& self.len == entries_of(self.slots@, self.bucket_count).len()
    }

    /// Creates a filter for `capacity` keys and a target FPR of `2^-fpr_bits`.
    pub fn new(capacity: usize, fpr_bits: u8) -> (filter: Self)
        requires
            capacity > 0,
            1 <= fpr_bits <= 29,
            bucket_count_for(capacity as nat) * 4 * (fpr_bits + 3) <= usize::MAX,
        ensures
            filter.wf(),
            filter@.bucket_count == bucket_count_for(capacity as nat),
            is_power_of_two(filter@.bucket_count),
            filter@.fingerprint_bits == fpr_bits + 3,
            filter@.slots == Seq::new((filter@.bucket_count * 4) as nat, |i: int| 0u32),
            is_power_of_two((filter@.bucket_count * 4) as usize),
            filter@.slots.len() >= 8,
            filter@.slots.len() >= required_slots(capacity as nat),
            filter@.len == 0,
            filter@.rng == RNG_SEED,
            filter@.max_kicks == DEFAULT_MAX_KICKS,
    {
        let required = slots_required(capacity);
        let wanted = (required + 3) / 4;
        let min_buckets: u128 = if wanted < 2 {
            2
        } else {
            wanted
        };
        let ghost target = bucket_count_for(capacity as nat);
        proof {
            lemma_double_until_bounds(min_buckets as nat, 1);
            assert(target * 4 * (fpr_bits + 3) >= target) by (nonlinear_arith)
                requires
                    target >= 0,
                    fpr_bits >= 1,
            ;
        }
        let min_buckets = min_buckets as usize;
        let mut bucket_count: usize = 1;
        proof {
            lemma_one_power_of_two();
        }
        while bucket_count < min_buckets
            invariant
                is_power_of_two(bucket_count),
                double_until(min_buckets as nat, bucket_count as nat) == target,
                bucket_count <= target,
                target * 4 * (fpr_bits + 3) <= usize::MAX,
                target <= usize::MAX,
            decreases target - bucket_count,
        {
            proof {
                lemma_double_until_bounds(min_buckets as nat, 2 * bucket_count as nat);
                lemma_double_power_of_two(bucket_count, (bucket_count * 2) as usize);
            }
            bucket_count = bucket_count * 2;
        }
        proof {
            assert(bucket_count * 4 <= bucket_count * 4 * (fpr_bits + 3)) by (nonlinear_arith)
                requires
                    fpr_bits >= 1,
            ;
        }
        let fingerprint_bits = fpr_bits + 3;
        let slots = PackedSlots::new(bucket_count * BUCKET_SIZE, fingerprint_bits);
        let filter = Self {
            slots,
            bucket_count,
            fingerprint_bits,
            len: 0,
            rng: RNG_SEED,
            max_kicks: DEFAULT_MAX_KICKS,
        };
        proof {
            lemma_entries_empty(filter.slots@, bucket_count);
            lemma_slot_count_power_of_two(bucket_count);
            lemma_double_until_bounds(min_buckets as nat, 1);
        }
        filter
    }

    /// The same filter with a different relocation limit.
    pub fn with_max_kicks(self, max_kicks: usize) -> (filter: Self)
        requires
            self.wf(),
            max_kicks > 0,
        ensures
            filter.wf(),
            filter@ == (CuckooView { max_kicks: max_kicks as nat, ..self@ }),
    {
        let mut filter = self;
        filter.max_kicks = max_kicks;
        filter
    }

    /// Reports whether `new(capacity, fpr_bits)` accepts these arguments: a
    /// positive capacity, a rate of 1 to 29 bits, and slot storage whose bit count
    /// fits in a `usize`.
    pub fn supports(capacity: usize, fpr_bits: u8) -> (ok: bool)
        ensures
            ok == (capacity > 0 && 1 <= fpr_bits <= 29 && bucket_count_for(capacity as nat) * 4 * (
            fpr_bits + 3) <= usize::MAX),
    {
        if capacity == 0 || fpr_bits < 1 || fpr_bits > 29 {
            return false;
        }
        let required = slots_required(capacity);
        let wanted = (required + 3) / 4;
        let min_buckets: u128 = if wanted < 2 {
            2
        } else {
            wanted
        };
        let ghost target = bucket_count_for(capacity as nat);
        let mut bucket_count: u128 = 1;
        while bucket_count < min_buckets
            invariant
                1 <= bucket_count < 2 * min_buckets,
                min_buckets <= 0x4_0000_0000_0000_0000,
                double_until(min_buckets as nat, bucket_count as nat) == target,
            decreases 2 * min_buckets - bucket_count,
        {
            bucket_count = bucket_count * 2;
        }
        let width = (fpr_bits + 3) as u128;
        assert(bucket_count * 4 * width <= 0x8_0000_0000_0000_0000 * 4 * 32) by (nonlinear_arith)
            requires
                bucket_count <= 0x8_0000_0000_0000_0000,
                width <= 32,
        ;
        bucket_count * 4 * width <= usize::MAX as u128
    }

    /// Inserts a key's fingerprint, relocating stored fingerprints if both of its
    /// buckets are full. Returns `false`, with the slots as they were, when
    /// `max_kicks` relocations did not free a slot.
    pub fn insert(&mut self, key: &str) -> (inserted: bool)
        requires
            old(self).wf(),
        ensures
            final(self).wf(),
            final(self)@.same_config(old(self)@),
            old(self)@.has_room(key) ==> inserted,
            old(self)@.has_room(key) ==> old(self)@.filled_first_free(final(self)@, key)
                && final(self)@.rng == old(self)@.rng,
            inserted ==> old(self)@.inserted(final(self)@, key),
            !inserted ==> final(self)@.slots == old(self)@.slots && final(self)@.len == old(self)@.len,
            !old(self)@.has_room(key) ==> {
                let walk = old(self)@.walk(key);
                &&& inserted == walk.0
                &&& inserted ==> final(self)@.slots == walk.1
                &&& final(self)@.rng == xorshift_iter(old(self)@.rng, 1 + walk.2)
            },
    {
        proof {
            self.slots.lemma_values_fit();
        }
        let fingerprint = self.fingerprint(key);
        let first = self.first_bucket(key);
        let second = self.alternate(first, fingerprint);
        let ghost orig = self@;
        let ghost bc = self.bucket_count;
        let ghost target = orig.entries().insert(orig.key_entry(key));
        proof {
            lemma_pair(first, first, fingerprint, bc);
            assert(orig.rng == xorshift_iter(orig.rng, 0));
        }
        if self.insert_empty(first, fingerprint) {
            proof {
                lemma_placed(orig.slots, self@.slots, first, fingerprint, bc);
                lemma_entries_len(self@.slots, bc);
                let o = choose|o: int|
                    0 <= o < 4 && orig.slots[#[trigger] slot_index(first, o)] == 0 && (forall|i: int|
                        0 <= i < o ==> orig.slots[#[trigger] slot_index(first, i)] != 0) && self@.slots
                        == orig.slots.update(slot_index(first, o), fingerprint);
                assert(orig.first_candidate_with(key, o, 0));
            }
            self.len = self.len + 1;
            return true;
        }
        if self.insert_empty(second, fingerprint) {
            proof {
                lemma_placed(orig.slots, self@.slots, second, fingerprint, bc);
                lemma_entries_len(self@.slots, bc);
                let o = choose|o: int|
                    0 <= o < 4 && orig.slots[#[trigger] slot_index(second, o)] == 0 && (forall|i: int|
                        0 <= i < o ==> orig.slots[#[trigger] slot_index(second, i)] != 0) && self@.slots
                        == orig.slots.update(slot_index(second, o), fingerprint);
                assert(orig.first_candidate_with(key, 4 + o, 0));
            }
            self.len = self.len + 1;
            return true;
        }
        let coin = self.random();
        let mut bucket = if coin & 1 == 0 {
            first
        } else {
            second
        };
        let mut carried = fingerprint;
        let mut path: Vec<(usize, u32)> = Vec::with_capacity(self.max_kicks);
        let ghost mut history: Seq<Seq<u32>> = seq![self@.slots];
        let ghost mut steps: nat = 1;
        let ghost bits = self.fingerprint_bits as nat;
        let mut kicks: usize = 0;
        let ghost walk = orig.walk(key);
        while kicks < self.max_kicks
            invariant
                orig == old(self)@,
                walk == orig.walk(key),
                ({
                    let rest = relocation_walk(
                        self@.slots,
                        bucket,
                        carried,
                        self.rng,
                        (self.max_kicks - kicks) as nat,
                        bc,
                    );
                    &&& walk.0 == rest.0
                    &&& walk.1 == rest.1
                    &&& walk.2 == kicks + rest.2
                }),
                steps == 1 + kicks,
                self.storage_wf(),
                self@.same_config(orig),
                self.len == orig.len,
                bc == self.bucket_count,
                bits == self.fingerprint_bits,
                orig.entries().len() == orig.len,
                target == orig.entries().insert(orig.key_entry(key)),
                !orig.has_room(key),
                bucket < bc,
                carried != 0,
                fit_width(carried, bits) == carried,
                !bucket_holds(self@.slots, bucket, 0),
                entries_of(self@.slots, bc).insert((carried, canonical_bucket(bucket, carried, bc))) == target,
                kicks <= self.max_kicks,
                path@.len() == kicks,
                relocations_undoable(path@, history, bits),
                history[0] == orig.slots,
                history.last() == self@.slots,
                self.rng == xorshift_iter(orig.rng, steps),
            decreases self.max_kicks - kicks,
        {
            let ghost walk_from = relocation_walk(
                self@.slots,
                bucket,
                carried,
                self.rng,
                (self.max_kicks - kicks) as nat,
                bc,
            );
            let r = self.random();
            proof {
                steps = steps + 1;
            }
            let offset = (r as usize) % BUCKET_SIZE;
            let slot = bucket * BUCKET_SIZE + offset;
            let ghost before = self@.slots;
            proof {
                assert(before[slot_index(bucket, offset as int)] != 0);
                self.slots.lemma_values_fit();
            }
            let displaced = self.slots.swap(slot, carried);
            path.push((slot, displaced));
            proof {
                lemma_kick(before, slot as int, bucket, carried, bc, target);
                lemma_relocation_push(path@.drop_last(), history, (slot, displaced), self@.slots, bits);
                history = history.push(self@.slots);
                lemma_pair(bucket, bucket, displaced, bc);
            }
            carried = displaced;
            bucket = self.alternate(bucket, carried);
            let ghost placed_from = self@.slots;
            if self.insert_empty(bucket, carried) {
                proof {
                    lemma_placed(placed_from, self@.slots, bucket, carried, bc);
                    lemma_entries_len(self@.slots, bc);
                    let o = choose|o: int|
                        0 <= o < 4 && placed_from[#[trigger] slot_index(bucket, o)] == 0 && (forall|i: int|
                            0 <= i < o ==> placed_from[#[trigger] slot_index(bucket, i)] != 0) && self@.slots
                            == placed_from.update(slot_index(bucket, o), carried);
                    lemma_first_free(placed_from, bucket, o);
                    assert(walk_from == (true, self@.slots, 1nat));
                }
                self.len = self.len + 1;
                return true;
            }
            proof {
                let rest = relocation_walk(
                    self@.slots,
                    bucket,
                    carried,
                    self.rng,
                    (self.max_kicks - (kicks + 1)) as nat,
                    bc,
                );
                assert(walk_from == (rest.0, rest.1, rest.2 + 1));
            }
            kicks = kicks + 1;
        }
        let mut undo = path.len();
        while undo > 0
            invariant
                orig == old(self)@,
                self.storage_wf(),
                self@.same_config(orig),
                self.len == orig.len,
                orig.entries().len() == orig.len,
                !orig.has_room(key),
                bits == self.fingerprint_bits,
                undo <= path@.len(),
                relocations_undoable(path@, history, bits),
                history[0] == orig.slots,
                history[undo as int] == self@.slots,
                self.rng == xorshift_iter(orig.rng, steps),
                walk == orig.walk(key),
                !walk.0,
                steps == 1 + walk.2,
            decreases undo,
        {
            undo = undo - 1;
            let (slot, previous) = path[undo];
            proof {
                lemma_relocation_undo(path@, history, bits, undo as int);
            }
            self.slots.set(slot, previous);
        }
        false
    }

    /// Reports whether the key's fingerprint is in one of its two buckets.
    pub fn contains(&self, key: &str) -> (found: bool)
        requires
            self.wf(),
        ensures
            found == self@.contains(key),
    {
        let fingerprint = self.fingerprint(key);
        let first = self.first_bucket(key);
        proof {
            lemma_key_slots(self@.slots, self.bucket_count, first, fingerprint);
        }
        self.bucket_contains(first, fingerprint) || self.bucket_contains(
            self.alternate(first, fingerprint),
            fingerprint,
        )
    }

    /// Removes one copy of the key's fingerprint from its buckets.
    ///
    /// Deleting a key that was never inserted can remove a colliding key's
    /// fingerprint.
    pub fn delete(&mut self, key: &str) -> (deleted: bool)
        requires
            old(self).wf(),
        ensures
            final(self).wf(),
            deleted == old(self)@.contains(key),
            deleted ==> old(self)@.deleted(final(self)@, key),
            !deleted ==> final(self)@ == old(self)@,
            final(self)@.rng == old(self)@.rng,
    {
        let fingerprint = self.fingerprint(key);
        let first = self.first_bucket(key);
        let second = self.alternate(first, fingerprint);
        let ghost orig = self@;
        let ghost bc = self.bucket_count;
        proof {
            lemma_key_slots(self@.slots, bc, first, fingerprint);
            lemma_pair(first, first, fingerprint, bc);
        }
        let buckets = [first, second];
        let mut which: usize = 0;
        while which < 2
            invariant
                orig == old(self)@,
                self.wf(),
                self@ == orig,
                bc == self.bucket_count,
                buckets@ == seq![first, second],
                first == orig.first_bucket(key),
                second == orig.second_bucket(key),
                fingerprint == orig.fingerprint(key),
                first < bc,
                second < bc,
                fingerprint != 0,
                orig.contains(key) <==> (bucket_holds(orig.slots, first, fingerprint) || bucket_holds(orig.slots, second, fingerprint)),
                which <= 2,
                which > 0 ==> !bucket_holds(orig.slots, first, fingerprint),
                which > 1 ==> !bucket_holds(orig.slots, second, fingerprint),
            decreases 2 - which,
        {
            let bucket = buckets[which];
            let mut offset: usize = 0;
            while offset < BUCKET_SIZE
                invariant
                    orig == old(self)@,
                    self.wf(),
                    self@ == orig,
                    bc == self.bucket_count,
                    bucket == buckets@[which as int],
                    buckets@ == seq![first, second],
                    which < 2,
                    first == orig.first_bucket(key),
                    second == orig.second_bucket(key),
                    fingerprint == orig.fingerprint(key),
                    first < bc,
                    second < bc,
                    fingerprint != 0,
                    orig.contains(key) <==> (bucket_holds(orig.slots, first, fingerprint) || bucket_holds(orig.slots, second, fingerprint)),
                    offset <= 4,
                    which > 0 ==> !bucket_holds(orig.slots, first, fingerprint),
                    forall|o: int| 0 <= o < offset ==> orig.slots[#[trigger] slot_index(bucket, o)] != fingerprint,
                decreases 4 - offset,
            {
                let slot = bucket * BUCKET_SIZE + offset;
                if self.slots.get(slot) == fingerprint {
                    self.slots.set(slot, 0);
                    proof {
                        lemma_zero_fits(self.fingerprint_bits as u64);
                        lemma_cleared(orig.slots, slot as int, bucket, fingerprint, bc);
                        lemma_pair(first, first, fingerprint, bc);
                    }
                    self.len = self.len - 1;
                    proof {
                        let j = 4 * which + offset;
                        assert(orig.cleared_at(self@, key, j as int));
                    }
                    return true;
                }
                offset = offset + 1;
            }
            which = which + 1;
        }
        false
    }

    /// Number of stored fingerprints.
    pub fn len(&self) -> (n: usize)
        requires
            self.wf(),
        ensures
            n == self@.len,
            n == self@.entries().len(),
            n <= self@.slots.len(),
    {
        proof {
            lemma_entries_len(self@.slots, self@.bucket_count);
        }
        self.len
    }

    /// Reports whether no fingerprint is stored.
    pub fn is_empty(&self) -> (empty: bool)
        requires
            self.wf(),
        ensures
            empty == (self@.len == 0),
            empty == (self@.entries().len() == 0),
    {
        self.len == 0
    }

    /// Total number of slots: a power of two, at least eight.
    pub fn slot_count(&self) -> (n: usize)
        requires
            self.wf(),
        ensures
            n == self@.bucket_count * 4,
            n == self@.slots.len(),
            is_power_of_two(n),
            n >= 8,
    {
        proof {
            lemma_slot_count_power_of_two(self.bucket_count);
        }
        self.bucket_count * BUCKET_SIZE
    }

    /// Bytes of packed slot storage.
    pub fn memory_bytes(&self) -> (n: usize)
        requires
            self.wf(),
        ensures
            n == words_for(self@.slots.len(), self@.fingerprint_bits) * 8,
    {
        self.slots.bytes()
    }

    /// Bits per fingerprint.
    pub fn fingerprint_bits(&self) -> (bits: u8)
        ensures
            bits == self@.fingerprint_bits,
    {
        self.fingerprint_bits
    }

    fn fingerprint(&self, key: &str) -> (f: u32)
        requires
            self.storage_wf(),
        ensures
            f == fingerprint_of(key, self.fingerprint_bits as nat),
            f != 0,
            fit_width(f, self.fingerprint_bits as nat) == f,
    {
        proof {
            crate::packed::lemma_low_mask_nonzero(self.fingerprint_bits as u64);
        }
        let mask = (1u64 << (self.fingerprint_bits as u64)) - 1;
        let masked = hash(key, FINGERPRINT_SEED) & mask;
        proof {
            lemma_masked_fits(hash_key(key, FINGERPRINT_SEED), self.fingerprint_bits as u64, mask);
        }
        if masked == 0 {
            1
        } else {
            masked as u32
        }
    }

    fn first_bucket(&self, key: &str) -> (b: usize)
        requires
            self.storage_wf(),
        ensures
            b == first_bucket_of(key, self.bucket_count),
            b < self.bucket_count,
    {
        let h = hash(key, BUCKET_SEED) as usize;
        proof {
            lemma_mask_below(h, self.bucket_count);
        }
        h & (self.bucket_count - 1)
    }

    fn alternate(&self, bucket: usize, fingerprint: u32) -> (other: usize)
        requires
            self.storage_wf(),
            bucket < self.bucket_count,
        ensures
            other == alternate_bucket(bucket, fingerprint, self.bucket_count),
            other < self.bucket_count,
    {
        proof {
            lemma_pair(bucket, bucket, fingerprint, self.bucket_count);
        }
        let mut offset = mix((fingerprint as u64) ^ ALTERNATE_SALT) as usize;
        offset = offset & (self.bucket_count - 1);
        bucket ^ if offset == 0 {
            1
        } else {
            offset
        }
    }

    /// Puts `fingerprint` in the first empty slot of `bucket`, if there is one.
    fn insert_empty(&mut self, bucket: usize, fingerprint: u32) -> (placed: bool)
        requires
            old(self).storage_wf(),
            bucket < old(self).bucket_count,
            fit_width(fingerprint, old(self).fingerprint_bits as nat) == fingerprint,
        ensures
            final(self).storage_wf(),
            final(self)@.same_config(old(self)@),
            final(self).len == old(self).len,
            final(self).rng == old(self).rng,
            placed == bucket_holds(old(self)@.slots, bucket, 0),
            placed ==> exists|o: int|
                0 <= o < 4 && old(self)@.slots[#[trigger] slot_index(bucket, o)] == 0 && (forall|i: int|
                    0 <= i < o ==> old(self)@.slots[#[trigger] slot_index(bucket, i)] != 0) && final(self)@.slots
                    == old(self)@.slots.update(slot_index(bucket, o), fingerprint),
            !placed ==> final(self)@.slots == old(self)@.slots,
    {
        let mut offset: usize = 0;
        while offset < BUCKET_SIZE
            invariant
                self.slots == old(self).slots,
                self.bucket_count == old(self).bucket_count,
                self.fingerprint_bits == old(self).fingerprint_bits,
                self.len == old(self).len,
                self.rng == old(self).rng,
                self.max_kicks == old(self).max_kicks,
                self.storage_wf(),
                fit_width(fingerprint, old(self).fingerprint_bits as nat) == fingerprint,
                bucket < self.bucket_count,
                offset <= 4,
                forall|o: int| 0 <= o < offset ==> self@.slots[#[trigger] slot_index(bucket, o)] != 0,
            decreases 4 - offset,
        {
            let slot = bucket * BUCKET_SIZE + offset;
            if self.slots.get(slot) == 0 {
                self.slots.set(slot, fingerprint);
                proof {
                    assert(self@.slots == old(self)@.slots.update(slot_index(bucket, offset as int), fingerprint));
                }
                return true;
            }
            offset = offset + 1;
        }
        false
    }

    fn bucket_contains(&self, bucket: usize, fingerprint: u32) -> (found: bool)
        requires
            self.storage_wf(),
            bucket < self.bucket_count,
        ensures
            found == bucket_holds(self@.slots, bucket, fingerprint),
    {
        let mut offset: usize = 0;
        while offset < BUCKET_SIZE
            invariant
                self.storage_wf(),
                bucket < self.bucket_count,
                offset <= 4,
                forall|o: int| 0 <= o < offset ==> self@.slots[#[trigger] slot_index(bucket, o)] != fingerprint,
            decreases 4 - offset,
        {
            let slot = bucket * BUCKET_SIZE + offset;
            proof {
                assert(slot == slot_index(bucket, offset as int));
            }
            if self.slots.get(slot) == fingerprint {
                return true;
            }
            offset = offset + 1;
        }
        false
    }

    /// Advances the xorshift64 generator and returns its new state.
    fn random(&mut self) -> (r: u64)
        ensures
            final(self).rng == xorshift(old(self).rng),
            r == final(self).rng,
            final(self).slots == old(self).slots,
            final(self).bucket_count == old(self).bucket_count,
            final(self).fingerprint_bits == old(self).fingerprint_bits,
            final(self).len == old(self).len,
            final(self).max_kicks == old(self).max_kicks,
    {
        self.rng = self.rng ^ (self.rng << 13);
        self.rng = self.rng ^ (self.rng >> 7);
        self.rng = self.rng ^ (self.rng << 17);
        self.rng
    }
}

/// Zero fits in any slot width.
proof fn lemma_zero_fits(w: u64)
    by (bit_vector)
    ensures
        (((0u32 as u64) & (((1u64 << w) - 1) as u64)) as u32) == 0u32,
{
}

/// A successful insert makes the key present and keeps every key that was present.
pub proof fn law_insert_keeps_keys(before: CuckooView, after: CuckooView, key: &str, other: &str)
    requires
        before.inserted(after, key),
    ensures
        after.contains(key),
        before.contains(other) ==> after.contains(other),
{
}

/// A failed insert, which leaves the slots as they were, leaves every key's
/// membership as it was.
pub proof fn law_failed_insert_keeps_keys(before: CuckooView, after: CuckooView, other: &str)
    requires
        after.same_config(before),
        after.slots == before.slots,
    ensures
        after.entries() == before.entries(),
        after.contains(other) == before.contains(other),
{
}

/// Deleting a key right after inserting it gives back the stored entries and count.
pub proof fn law_delete_undoes_insert(before: CuckooView, middle: CuckooView, after: CuckooView, key: &str)
    requires
        before.inserted(middle, key),
        middle.deleted(after, key),
    ensures
        after.entries() == before.entries(),
        after.len == before.len,
{
}

/// Deleting a key keeps every key with a different entry present.
pub proof fn law_delete_keeps_other_keys(before: CuckooView, after: CuckooView, key: &str, other: &str)
    requires
        before.deleted(after, key),
        before.contains(other),
        before.key_entry(other) != before.key_entry(key),
    ensures
        after.contains(other),
{
}

/// Deleting the only stored copy of a key's entry makes the key absent, and with
/// it every key that shares the entry.
pub proof fn law_delete_last_copy(before: CuckooView, after: CuckooView, key: &str, other: &str)
    requires
        before.deleted(after, key),
        before.entries().count(before.key_entry(key)) == 1,
        before.key_entry(other) == before.key_entry(key),
    ensures
        !after.contains(other),
{
}

/// No false negatives over inserts and deletes: let `stored` be entries that
/// `before` holds (those of the keys inserted and not yet deleted). A successful
/// insert holds them and the new key's entry; a failed insert still holds them; a
/// successful delete of a key whose entry is among them holds the rest.
pub proof fn law_stored_entries_kept(
    before: CuckooView,
    after: CuckooView,
    key: &str,
    stored: Multiset<(u32, usize)>,
)
    requires
        stored.subset_of(before.entries()),
    ensures
        before.inserted(after, key) ==> stored.insert(before.key_entry(key)).subset_of(
            after.entries(),
        ),
        after.same_config(before) && after.slots == before.slots ==> stored.subset_of(
            after.entries(),
        ),
        before.deleted(after, key) && stored.contains(before.key_entry(key)) ==> stored.remove(
            before.key_entry(key),
        ).subset_of(after.entries()),
{
}

/// A key whose entry is among entries the filter holds is reported present.
pub proof fn law_stored_key_found(filter: CuckooView, stored: Multiset<(u32, usize)>, key: &str)
    requires
        stored.subset_of(filter.entries()),
        stored.contains(filter.key_entry(key)),
    ensures
        filter.contains(key),
{
}

/// The two buckets of a fingerprint: the alternate of a bucket is another bucket
/// in range, and the alternate of the alternate is the bucket itself.
pub proof fn law_alternate_pairs(bucket: usize, fingerprint: u32, bucket_count: usize)
    requires
        is_power_of_two(bucket_count),
        bucket_count >= 2,
        bucket < bucket_count,
    ensures
        alternate_bucket(bucket, fingerprint, bucket_count) < bucket_count,
        alternate_bucket(bucket, fingerprint, bucket_count) != bucket,
        alternate_bucket(alternate_bucket(bucket, fingerprint, bucket_count), fingerprint, bucket_count)
            == bucket,
{
    lemma_pair(bucket, bucket, fingerprint, bucket_count);
}

/// A filter whose slots are all empty reports no key present.
pub proof fn law_empty_filter_contains_nothing(filter: CuckooView, key: &str)
    requires
        forall|i: int| 0 <= i < filter.slots.len() ==> filter.slots[i] == 0,
    ensures
        !filter.contains(key),
        filter.entries().len() == 0,
{
    lemma_entries_empty(filter.slots, filter.bucket_count);
}

/// Xor with an offset stays inside a power-of-two range and undoes itself.
proof fn lemma_xor_in_range(b: usize, o: usize, n: usize)
    by (bit_vector)
    requires
        n > 0,
        n & ((n - 1) as usize) == 0,
        b < n,
        o < n,
    ensures
        (b ^ o) < n,
        (b ^ o) ^ o == b,
        o != 0 ==> (b ^ o) != b,
{
}

/// Masking with `n - 1` lands below `n`.
proof fn lemma_mask_below(x: usize, n: usize)
    by (bit_vector)
    requires
        n > 0,
    ensures
        x & ((n - 1) as usize) < n,
{
}

/// Doubling a power of two gives a power of two.
proof fn lemma_double_power_of_two(p: usize, q: usize)
    by (bit_vector)
    requires
        p > 0,
        p & ((p - 1) as usize) == 0,
        q == p * 2,
    ensures
        q > 0,
        q & ((q - 1) as usize) == 0,
{
}

/// A fingerprint masked to `w` bits, or one, fits in a slot of `w` bits.
proof fn lemma_masked_fits(h: u64, w: u64, m: u64)
    by (bit_vector)
    requires
        1 <= w <= 32,
        m == ((1u64 << w) - 1) as u64,
    ensures
        ((((h & m) as u32) as u64) & m) as u32 == (h & m) as u32,
        ((1u32 as u64) & m) as u32 == 1u32,
        (h & m) <= 0xffff_ffffu64,
{
}

/// Doubling from `p` ends at least at `m` and at least at `p`.
proof fn lemma_double_until_bounds(m: nat, p: nat)
    requires
        p > 0,
    ensures
        double_until(m, p) >= m,
        double_until(m, p) >= p,
    decreases (if p < m {
        m - p
    } else {
        0
    }),
{
    if p < m {
        lemma_double_until_bounds(m, 2 * p);
    }
}

/// The two buckets of a fingerprint: distinct, in range, swapped by the offset,
/// and with the same canonical bucket; a canonical bucket determines the pair.
proof fn lemma_pair(b: usize, c: usize, f: u32, bucket_count: usize)
    requires
        is_power_of_two(bucket_count),
        bucket_count >= 2,
        b < bucket_count,
        c < bucket_count,
    ensures
        alternate_bucket(b, f, bucket_count) < bucket_count,
        alternate_bucket(b, f, bucket_count) != b,
        alternate_bucket(alternate_bucket(b, f, bucket_count), f, bucket_count) == b,
        canonical_bucket(alternate_bucket(b, f, bucket_count), f, bucket_count)
            == canonical_bucket(b, f, bucket_count),
        canonical_bucket(b, f, bucket_count) == canonical_bucket(c, f, bucket_count) ==> (c == b
            || c == alternate_bucket(b, f, bucket_count)),
{
    let raw = mix_spec((f as u64) ^ ALTERNATE_SALT) as usize;
    lemma_mask_below(raw, bucket_count);
    let o = bucket_offset(f, bucket_count);
    lemma_xor_in_range(b, o, bucket_count);
    lemma_xor_in_range(c, o, bucket_count);
    lemma_xor_in_range(b ^ o, o, bucket_count);
}

/// Replacing one slot swaps that slot's contribution to the entries.
proof fn lemma_entries_update(slots: Seq<u32>, i: int, v: u32, bucket_count: usize)
    requires
        0 <= i < slots.len(),
    ensures
        entries_of(slots.update(i, v), bucket_count).add(slot_entry(slots[i], i, bucket_count))
            =~= entries_of(slots, bucket_count).add(slot_entry(v, i, bucket_count)),
    decreases slots.len(),
{
    reveal(entries_of);
    let updated = slots.update(i, v);
    let last = slots.len() - 1;
    assert(entries_of(updated, bucket_count) == entries_of(updated.drop_last(), bucket_count).add(
        slot_entry(updated[last], last, bucket_count),
    ));
    assert(entries_of(slots, bucket_count) == entries_of(slots.drop_last(), bucket_count).add(
        slot_entry(slots[last], last, bucket_count),
    ));
    if i == last {
        assert(updated.drop_last() =~= slots.drop_last());
    } else {
        assert(updated.drop_last() =~= slots.drop_last().update(i, v));
        lemma_entries_update(slots.drop_last(), i, v, bucket_count);
        let lhs = entries_of(updated, bucket_count).add(slot_entry(slots[i], i, bucket_count));
        let rhs = entries_of(slots, bucket_count).add(slot_entry(v, i, bucket_count));
        assert forall|x: (u32, usize)| lhs.count(x) == rhs.count(x) by {
            assert(entries_of(updated.drop_last(), bucket_count).add(slot_entry(slots[i], i, bucket_count)).count(x)
                == entries_of(slots.drop_last(), bucket_count).add(slot_entry(v, i, bucket_count)).count(x));
        }
    }
}

/// An entry is stored exactly when some slot contributes it.
proof fn lemma_entries_count(slots: Seq<u32>, bucket_count: usize, e: (u32, usize))
    ensures
        entries_of(slots, bucket_count).count(e) > 0 <==> exists|i: int|
            0 <= i < slots.len() && #[trigger] slot_entry(slots[i], i, bucket_count).count(e) > 0,
    decreases slots.len(),
{
    reveal(entries_of);
    if slots.len() > 0 {
        let rest = slots.drop_last();
        lemma_entries_count(rest, bucket_count, e);
        if exists|i: int| 0 <= i < rest.len() && #[trigger] slot_entry(rest[i], i, bucket_count).count(e) > 0 {
            let i = choose|i: int| 0 <= i < rest.len() && #[trigger] slot_entry(rest[i], i, bucket_count).count(e) > 0;
        }
        if exists|i: int| 0 <= i < slots.len() && #[trigger] slot_entry(slots[i], i, bucket_count).count(e) > 0 {
            let i = choose|i: int| 0 <= i < slots.len() && #[trigger] slot_entry(slots[i], i, bucket_count).count(e) > 0;
            if i < slots.len() - 1 {
                assert(slot_entry(rest[i], i, bucket_count).count(e) > 0);
            }
        }
    }
}

/// There are no more entries than slots.
proof fn lemma_entries_len(slots: Seq<u32>, bucket_count: usize)
    ensures
        entries_of(slots, bucket_count).len() <= slots.len(),
    decreases slots.len(),
{
    reveal(entries_of);
    if slots.len() > 0 {
        lemma_entries_len(slots.drop_last(), bucket_count);
    }
}

/// Empty slots store no entries.
proof fn lemma_entries_empty(slots: Seq<u32>, bucket_count: usize)
    requires
        forall|i: int| 0 <= i < slots.len() ==> slots[i] == 0,
    ensures
        entries_of(slots, bucket_count) =~= Multiset::empty(),
    decreases slots.len(),
{
    reveal(entries_of);
    if slots.len() > 0 {
        lemma_entries_empty(slots.drop_last(), bucket_count);
    }
}

/// A fingerprint's entry is stored exactly when one of its two buckets holds it.
proof fn lemma_key_slots(slots: Seq<u32>, bucket_count: usize, b: usize, f: u32)
    requires
        is_power_of_two(bucket_count),
        bucket_count >= 2,
        b < bucket_count,
        f != 0,
        slots.len() == bucket_count * 4,
    ensures
        entries_of(slots, bucket_count).contains((f, canonical_bucket(b, f, bucket_count)))
            <==> (bucket_holds(slots, b, f) || bucket_holds(
            slots,
            alternate_bucket(b, f, bucket_count),
            f,
        )),
{
    let e = (f, canonical_bucket(b, f, bucket_count));
    let a = alternate_bucket(b, f, bucket_count);
    lemma_entries_count(slots, bucket_count, e);
    lemma_pair(b, b, f, bucket_count);
    if bucket_holds(slots, b, f) {
        let o = choose|o: int| 0 <= o < 4 && slots[#[trigger] slot_index(b, o)] == f;
        let i = slot_index(b, o);
        assert(slot_entry(slots[i], i, bucket_count).count(e) > 0);
    }
    if bucket_holds(slots, a, f) {
        let o = choose|o: int| 0 <= o < 4 && slots[#[trigger] slot_index(a, o)] == f;
        let i = slot_index(a, o);
        assert(slot_entry(slots[i], i, bucket_count).count(e) > 0);
    }
    if entries_of(slots, bucket_count).contains(e) {
        let i = choose|i: int| 0 <= i < slots.len() && #[trigger] slot_entry(slots[i], i, bucket_count).count(e) > 0;
        let c = (i / 4) as usize;
        lemma_pair(b, c, f, bucket_count);
        assert(i == slot_index(c, i % 4));
    }
}

/// The first empty offset of a bucket is the one before which every slot is full.
proof fn lemma_first_free(slots: Seq<u32>, bucket: usize, o: int)
    requires
        0 <= o < 4,
        slots[slot_index(bucket, o)] == 0,
        forall|i: int| 0 <= i < o ==> slots[#[trigger] slot_index(bucket, i)] != 0,
    ensures
        first_free_offset(slots, bucket) == o,
{
    if o >= 1 {
        assert(slots[slot_index(bucket, 0)] != 0);
    }
    if o >= 2 {
        assert(slots[slot_index(bucket, 1)] != 0);
    }
    if o >= 3 {
        assert(slots[slot_index(bucket, 2)] != 0);
    }
}

/// Four times a power of two is a power of two.
proof fn lemma_slot_count_power_of_two(bucket_count: usize)
    requires
        is_power_of_two(bucket_count),
        bucket_count * 4 <= usize::MAX,
    ensures
        is_power_of_two((bucket_count * 4) as usize),
{
    lemma_double_power_of_two(bucket_count, (bucket_count * 2) as usize);
    lemma_double_power_of_two((bucket_count * 2) as usize, (bucket_count * 4) as usize);
}

/// One is a power of two.
proof fn lemma_one_power_of_two()
    ensures
        is_power_of_two(1),
{
    assert(1usize & 0usize == 0usize) by (bit_vector);
}

/// One relocation: the carried fingerprint takes a full slot of `bucket`, and the
/// displaced one is carried on towards its other bucket.
proof fn lemma_kick(
    before: Seq<u32>,
    slot: int,
    bucket: usize,
    carried: u32,
    bucket_count: usize,
    target: Multiset<(u32, usize)>,
)
    requires
        is_power_of_two(bucket_count),
        bucket_count >= 2,
        bucket < bucket_count,
        0 <= slot < before.len(),
        slot / 4 == bucket,
        before[slot] != 0,
        carried != 0,
        entries_of(before, bucket_count).insert((carried, canonical_bucket(bucket, carried, bucket_count)))
            == target,
    ensures
        ({
            let d = before[slot];
            entries_of(before.update(slot, carried), bucket_count).insert(
                (d, canonical_bucket(alternate_bucket(bucket, d, bucket_count), d, bucket_count)),
            ) == target
        }),
{
    let d = before[slot];
    lemma_entries_update(before, slot, carried, bucket_count);
    lemma_pair(bucket, bucket, d, bucket_count);
    assert(entries_of(before.update(slot, carried), bucket_count).insert(
        (d, canonical_bucket(alternate_bucket(bucket, d, bucket_count), d, bucket_count)),
    ) =~= target);
}

/// Filling an empty slot of `bucket` adds the fingerprint's entry.
proof fn lemma_placed(before: Seq<u32>, after: Seq<u32>, bucket: usize, f: u32, bucket_count: usize)
    requires
        bucket < bucket_count,
        before.len() == bucket_count * 4,
        f != 0,
        exists|o: int|
            0 <= o < 4 && before[#[trigger] slot_index(bucket, o)] == 0 && after == before.update(
                slot_index(bucket, o),
                f,
            ),
    ensures
        entries_of(after, bucket_count) == entries_of(before, bucket_count).insert(
            (f, canonical_bucket(bucket, f, bucket_count)),
        ),
{
    let o = choose|o: int|
        0 <= o < 4 && before[#[trigger] slot_index(bucket, o)] == 0 && after == before.update(
            slot_index(bucket, o),
            f,
        );
    let i = slot_index(bucket, o);
    lemma_entries_update(before, i, f, bucket_count);
    assert(entries_of(after, bucket_count) =~= entries_of(before, bucket_count).insert(
        (f, canonical_bucket(bucket, f, bucket_count)),
    ));
}

/// Emptying a slot of `bucket` that holds `f` removes one copy of its entry.
proof fn lemma_cleared(before: Seq<u32>, slot: int, bucket: usize, f: u32, bucket_count: usize)
    requires
        0 <= slot < before.len(),
        slot / 4 == bucket,
        before[slot] == f,
        f != 0,
    ensures
        entries_of(before, bucket_count).count((f, canonical_bucket(bucket, f, bucket_count))) >= 1,
        entries_of(before.update(slot, 0), bucket_count) == entries_of(before, bucket_count).remove(
            (f, canonical_bucket(bucket, f, bucket_count)),
        ),
        entries_of(before.update(slot, 0), bucket_count).len() + 1 == entries_of(before, bucket_count).len(),
{
    let e = (f, canonical_bucket(bucket, f, bucket_count));
    let after = before.update(slot, 0);
    lemma_entries_update(before, slot, 0, bucket_count);
    assert(entries_of(after, bucket_count).add(Multiset::singleton(e)) =~= entries_of(before, bucket_count));
}

/// Halving a power of two above one: the mask splits into the mask of the half,
/// shifted, and the lowest bit.
proof fn lemma_power_of_two_halves(x: usize, n: usize)
    by (bit_vector)
    requires
        n > 1,
        n & ((n - 1) as usize) == 0,
    ensures
        n % 2 == 0,
        n / 2 > 0,
        (n / 2) & ((n / 2 - 1) as usize) == 0,
        x & ((n - 1) as usize) == ((x / 2) & ((n / 2 - 1) as usize)) * 2 + x % 2,
{
}

/// For a power of two `n`, masking with `n - 1` is reduction modulo `n`.
proof fn lemma_power_of_two_mask_is_mod(x: usize, n: usize)
    requires
        n > 0,
        n & ((n - 1) as usize) == 0,
    ensures
        (x & ((n - 1) as usize)) as nat == (x as nat) % (n as nat),
    decreases n,
{
    if n == 1 {
        assert(x & 0usize == 0usize) by (bit_vector);
    } else {
        lemma_power_of_two_halves(x, n);
        lemma_power_of_two_mask_is_mod(x / 2, n / 2);
        vstd::arithmetic::div_mod::lemma_mod_breakdown(x as int, 2, (n / 2) as int);
        assert(n as int == 2 * (n / 2) as int);
    }
}

/// A key's fingerprint is the low `bits` bits of its fingerprint hash, or one when
/// those are all zero; its first bucket is its bucket hash modulo the bucket count.
/// The two hashes use different seeds, so neither is a function of the other.
pub proof fn law_fingerprint_and_first_bucket(key: &str, bits: nat, bucket_count: usize)
    requires
        1 <= bits <= 32,
        is_power_of_two(bucket_count),
    ensures
        FINGERPRINT_SEED != BUCKET_SEED,
        fingerprint_of(key, bits) as nat == (if (hash_key(key, FINGERPRINT_SEED) as nat) % pow2(
            bits,
        ) == 0 {
            1
        } else {
            (hash_key(key, FINGERPRINT_SEED) as nat) % pow2(bits)
        }),
        first_bucket_of(key, bucket_count) as nat == ((hash_key(key, BUCKET_SEED) as usize) as nat)
            % (bucket_count as nat),
{
    let h = hash_key(key, FINGERPRINT_SEED);
    crate::packed::lemma_width_mask_is_mod(h, bits);
    lemma_masked_fits(h, bits as u64, width_mask(bits));
    lemma_power_of_two_mask_is_mod(hash_key(key, BUCKET_SEED) as usize, bucket_count);
}

/// The xor offset between a fingerprint's two buckets is the avalanche of the
/// fingerprint salted with `ALTERNATE_SALT`, modulo the bucket count, or one when
/// that is zero: it depends on the fingerprint alone, never on the key.
pub proof fn law_bucket_offset(fingerprint: u32, bucket_count: usize)
    requires
        is_power_of_two(bucket_count),
    ensures
        bucket_offset(fingerprint, bucket_count) as nat == (if ((mix_spec(
            (fingerprint as u64) ^ ALTERNATE_SALT,
        ) as usize) as nat) % (bucket_count as nat) == 0 {
            1
        } else {
            ((mix_spec((fingerprint as u64) ^ ALTERNATE_SALT) as usize) as nat) % (
            bucket_count as nat)
        }),
{
    lemma_power_of_two_mask_is_mod(
        mix_spec((fingerprint as u64) ^ ALTERNATE_SALT) as usize,
        bucket_count,
    );
}

} // verus!
