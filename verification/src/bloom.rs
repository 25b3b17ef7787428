//! A Bloom filter: no false negatives, no deletion.
use vstd::prelude::*;
use vstd::wrapping::u64_specs;
use crate::hash::{hash, hash_key};
use crate::rounding::{
    ceil_of_nearest_double,
    ceil_of_nearest_double_u128,
    nearest_double,
    nearest_double_u128,
};

verus! {

/// Seed of the hash that gives the first probe.
pub const FIRST_SEED: u64 = 0x243f6a8885a308d3;

/// Seed of the hash that gives the probe step.
pub const STEP_SEED: u64 = 0x13198a2e03707344;

/// `ln 2` as the nearest double: this numerator over `2^53`.
pub const LN_2_NUMERATOR: u128 = 6243314768165359;

/// `2^53`, the denominator of `LN_2_NUMERATOR`.
pub const LN_2_DENOMINATOR: u128 = 0x20_0000_0000_0000;

/// Bits requested for `capacity` keys at a false-positive rate of `2^-fpr_bits`:
/// `capacity * fpr_bits / ln 2` in binary64 arithmetic (each operand and each
/// intermediate result taken as the nearest binary64 value), rounded up.
pub open spec fn requested_bits(capacity: nat, fpr_bits: nat) -> nat {
    ceil_of_nearest_double(
        nearest_double(nearest_double(capacity) * fpr_bits) * (LN_2_DENOMINATOR as nat),
        LN_2_NUMERATOR as nat,
    )
}

/// Words of storage: the requested bits, at least 64, rounded up to whole words.
pub open spec fn bloom_word_count(capacity: nat, fpr_bits: nat) -> nat {
    let requested = requested_bits(capacity, fpr_bits);
    let at_least = if requested < 64 {
        64
    } else {
        requested
    };
    ((at_least + 63) / 64) as nat
}

/// The optimal probe count `bit_count / capacity * ln 2`, rounded to nearest, at
/// least one and saturated to `u32`.
pub open spec fn bloom_hash_count(bit_count: nat, capacity: nat) -> nat {
    let rounded = (bit_count * LN_2_NUMERATOR + capacity * (LN_2_DENOMINATOR / 2)) / (capacity
        * LN_2_DENOMINATOR);
    if rounded < 1 {
        1
    } else if rounded > u32::MAX {
        u32::MAX as nat
    } else {
        rounded as nat
    }
}

/// Bit `k` of the little-endian bit string of `words`.
pub open spec fn bit_of(words: Seq<u64>, k: int) -> bool {
    (words[k / 64] >> ((k % 64) as u64)) & 1u64 == 1u64
}

/// Probe `round`: `first + round * step` with wrapping arithmetic, modulo the bit count.
pub open spec fn probe(first: u64, step: u64, round: nat, bit_count: nat) -> nat {
    (u64_specs::wrapping_add(first, u64_specs::wrapping_mul(round as u64, step)) as usize as nat)
        % bit_count
}

/// The bits that probes `0 .. hash_count` reach.
pub open spec fn probe_set(first: u64, step: u64, hash_count: nat, bit_count: nat) -> Set<nat> {
    Set::new(|k: nat| exists|r: nat| r < hash_count && k == probe(first, step, r, bit_count))
}

/// The members of `bits` below `limit`.
pub open spec fn bits_below(bits: Set<nat>, limit: nat) -> Set<nat> {
    bits.filter(|k: nat| k < limit)
}

/// The first probe of a key.
pub open spec fn first_hash(key: &str) -> u64 {
    hash_key(key, FIRST_SEED)
}

/// The probe step of a key: always odd.
pub open spec fn step_hash(key: &str) -> u64 {
    hash_key(key, STEP_SEED) | 1u64
}

/// The bits a key sets on insertion and tests on lookup.
pub open spec fn key_bits(key: &str, hash_count: nat, bit_count: nat) -> Set<nat> {
    probe_set(first_hash(key), step_hash(key), hash_count, bit_count)
}

/// The abstract state of a Bloom filter.
pub struct BloomView {
    /// The positions of the set bits.
    pub bits: Set<nat>,
    pub bit_count: nat,
    pub hash_count: nat,
    /// Number of insertions so far.
    pub len: nat,
    pub capacity: nat,
}

impl BloomView {
    /// A key is reported present when every bit it probes is set.
    pub open spec fn contains(self, key: &str) -> bool {
        key_bits(key, self.hash_count, self.bit_count).subset_of(self.bits)
    }

    /// The state after inserting `keys` in order.
    pub open spec fn insert_all(self, keys: Seq<&str>) -> BloomView
        decreases keys.len(),
    {
        if keys.len() == 0 {
            self
        } else {
            self.insert_all(keys.drop_last()).insert(keys.last())
        }
    }

    /// The state after inserting `key`.
    pub open spec fn insert(self, key: &str) -> BloomView {
        BloomView {
            bits: self.bits.union(key_bits(key, self.hash_count, self.bit_count)),
            len: self.len + 1,
            ..self
        }
    }
}

/// A space-efficient Bloom filter with no false negatives.
///
/// Bloom filters do not support deletion because each bit can belong to many keys.
#[derive(Clone, Debug)]
pub struct BloomFilter {
    bits: Vec<u64>,
    bit_count: usize,
    hash_count: u32,
    len: usize,
    capacity: usize,
}

impl View for BloomFilter {
    type V = BloomView;

    closed spec fn view(&self) -> BloomView {
        BloomView {
            bits: Set::new(|k: nat| k < self.bit_count && bit_of(self.bits@, k as int)),
            bit_count: self.bit_count as nat,
            hash_count: self.hash_count as nat,
            len: self.len as nat,
            capacity: self.capacity as nat,
        }
    }
}

/// Setting bit `a` of a word leaves the other bits and sets bit `a`.
proof fn lemma_set_bit(x: u64, a: u64, b: u64)
    by (bit_vector)
    requires
        a < 64,
        b < 64,
    ensures
        (((x | (1u64 << a)) >> b) & 1u64 == 1u64) == (((x >> b) & 1u64 == 1u64) || a == b),
        ((x & (1u64 << a)) != 0u64) == ((x >> a) & 1u64 == 1u64),
{
}

impl BloomFilter {
    /// Storage and parameters are consistent.
    pub closed spec fn wf(&self) -> bool {
        &&& self.bit_count == self.bits@.len() * 64
        &&& self.bit_count >= 64
        &&& self.hash_count >= 1
        &&& self.capacity > 0
    }

    /// Creates a filter sized for `capacity` keys and a target FPR of `2^-fpr_bits`.
    pub fn new(capacity: usize, fpr_bits: u8) -> (filter: Self)
        requires
            capacity > 0,
            fpr_bits > 0,
            bloom_word_count(capacity as nat, fpr_bits as nat) * 64 <= usize::MAX,
        ensures
            filter.wf(),
            filter@.bits == Set::<nat>::empty(),
            filter@.bit_count == bloom_word_count(capacity as nat, fpr_bits as nat) * 64,
            filter@.hash_count == bloom_hash_count(filter@.bit_count, capacity as nat),
            filter@.len == 0,
            filter@.capacity == capacity,
    {
        let wide_capacity = capacity as u128;
        let word_count = word_count_for(capacity, fpr_bits) as usize;
        let bit_count = word_count * 64;
        let wide_bits = bit_count as u128;
        assert(wide_bits * LN_2_NUMERATOR <= 0x1_0000_0000_0000_0000 * 6243314768165359) by (nonlinear_arith)
            requires
                wide_bits <= 0xffff_ffff_ffff_ffff,
                LN_2_NUMERATOR == 6243314768165359,
        ;
        assert(wide_capacity * LN_2_DENOMINATOR <= 0x1_0000_0000_0000_0000 * 0x20_0000_0000_0000) by (nonlinear_arith)
            requires
                wide_capacity <= 0xffff_ffff_ffff_ffff,
                LN_2_DENOMINATOR == 0x20_0000_0000_0000,
        ;
        let scaled_bits = wide_bits * LN_2_NUMERATOR;
        let denominator = wide_capacity * LN_2_DENOMINATOR;
        let half = denominator / 2;
        let rounded = (scaled_bits + half) / denominator;
        let hash_count: u32 = if rounded < 1 {
            1
        } else if rounded > u32::MAX as u128 {
            u32::MAX
        } else {
            rounded as u32
        };
        let bits: Vec<u64> = vec![0; word_count];
        let filter = Self { bits, bit_count, hash_count, len: 0, capacity };
        proof {
            assert forall|k: nat| k < bit_count implies !bit_of(filter.bits@, k as int) by {
                lemma_zero_bit((k % 64) as u64);
            }
        }
        filter
    }

    /// Adds a key. A Bloom filter cannot become full, so this always returns `true`.
    pub fn insert(&mut self, key: &str) -> (inserted: bool)
        requires
            old(self).wf(),
            old(self)@.len < usize::MAX,
        ensures
            final(self).wf(),
            inserted,
            final(self)@ == old(self)@.insert(key),
    {
        let (first, step) = self.base_hashes(key);
        let locations = Self::locations(first, step, self.hash_count, self.bit_count);
        let ghost probes = key_bits(key, self.hash_count as nat, self.bit_count as nat);
        let ghost start = self@.bits;
        let mut i: usize = 0;
        while i < locations.len()
            invariant
                self.wf(),
                self.bit_count == old(self).bit_count,
                self.hash_count == old(self).hash_count,
                self.len == old(self).len,
                self.capacity == old(self).capacity,
                start == old(self)@.bits,
                0 <= i <= locations@.len(),
                locations@.len() == self.hash_count,
                forall|r: int| 0 <= r < locations@.len() ==> #[trigger] locations@[r] == probe(first, step, r as nat, self.bit_count as nat),
                forall|k: nat| #[trigger] self@.bits.contains(k) <==> (start.contains(k) || exists|r: int| 0 <= r < i && k == locations@[r]),
            decreases locations@.len() - i,
        {
            let index = locations[i];
            let word = index / 64;
            let shift = (index % 64) as u64;
            let ghost before = self@.bits;
            let ghost old_words = self.bits@;
            self.bits.set(word, self.bits[word] | (1u64 << shift));
            proof {
                assert forall|k: nat| #[trigger] self@.bits.contains(k) <==> (before.contains(k) || k == index) by {
                    if k < self.bit_count {
                        if k / 64 == word {
                            lemma_set_bit(old_words[word as int], shift, (k % 64) as u64);
                        }
                    }
                }
            }
            i = i + 1;
        }
        proof {
            assert forall|k: nat| #[trigger] self@.bits.contains(k) <==> start.union(probes).contains(k) by {
                if exists|r: int| 0 <= r < i && k == locations@[r] {
                    let r = choose|r: int| 0 <= r < i && k == locations@[r];
                }
                if probes.contains(k) {
                    let r = choose|r: nat| r < self.hash_count && k == probe(first, step, r, self.bit_count as nat);
                    assert(k == locations@[r as int]);
                }
            }
            assert(self@.bits =~= start.union(probes));
        }
        self.len = self.len + 1;
        true
    }

    /// Reports whether every bit that `key` probes is set.
    pub fn contains(&self, key: &str) -> (found: bool)
        requires
            self.wf(),
        ensures
            found == self@.contains(key),
    {
        let (first, step) = self.base_hashes(key);
        let locations = Self::locations(first, step, self.hash_count, self.bit_count);
        let mut i: usize = 0;
        while i < locations.len()
            invariant
                self.wf(),
                0 <= i <= locations@.len(),
                locations@.len() == self.hash_count,
                forall|r: int| 0 <= r < locations@.len() ==> #[trigger] locations@[r] == probe(first, step, r as nat, self.bit_count as nat),
                forall|r: int| 0 <= r < i ==> self@.bits.contains(#[trigger] locations@[r] as nat),
                first == first_hash(key),
                step == step_hash(key),
            decreases locations@.len() - i,
        {
            let index = locations[i];
            let word = self.bits[index / 64];
            proof {
                lemma_set_bit(word, (index % 64) as u64, (index % 64) as u64);
            }
            if word & (1u64 << ((index % 64) as u64)) == 0 {
                proof {
                    assert(key_bits(key, self.hash_count as nat, self.bit_count as nat).contains(index as nat));
                }
                return false;
            }
            i = i + 1;
        }
        proof {
            assert forall|k: nat| #[trigger] key_bits(key, self.hash_count as nat, self.bit_count as nat).contains(k) implies self@.bits.contains(k) by {
                let r = choose|r: nat| r < self.hash_count && k == probe(first, step, r, self.bit_count as nat);
                assert(k == locations@[r as int]);
            }
        }
        true
    }

    /// Number of insertions so far.
    pub fn len(&self) -> (n: usize)
        ensures
            n == self@.len,
    {
        self.len
    }

    /// Reports whether nothing has been inserted.
    pub fn is_empty(&self) -> (empty: bool)
        ensures
            empty == (self@.len == 0),
    {
        self.len == 0
    }

    /// The capacity the filter was sized for.
    pub fn capacity(&self) -> (c: usize)
        ensures
            c == self@.capacity,
    {
        self.capacity
    }

    /// Bytes of bit storage.
    pub fn memory_bytes(&self) -> (n: usize)
        requires
            self.wf(),
        ensures
            n == self@.bit_count / 8,
    {
        self.bits.len() * core::mem::size_of::<u64>()
    }

    /// Bits of storage.
    pub fn bit_count(&self) -> (n: usize)
        ensures
            n == self@.bit_count,
    {
        self.bit_count
    }

    /// Probes per key.
    pub fn hash_count(&self) -> (n: u32)
        ensures
            n == self@.hash_count,
    {
        self.hash_count
    }

    /// Number of set bits.
    pub fn set_bit_count(&self) -> (n: usize)
        requires
            self.wf(),
        ensures
            self@.bits.finite(),
            n == self@.bits.len(),
    {
        let ghost bits = self@.bits;
        let mut count: usize = 0;
        let mut index: usize = 0;
        proof {
            assert(bits_below(bits, 0) =~= Set::<nat>::empty());
        }
        while index < self.bit_count
            invariant
                self.wf(),
                bits == self@.bits,
                index <= self.bit_count,
                bits_below(bits, index as nat).finite(),
                count == bits_below(bits, index as nat).len(),
                count <= index,
            decreases self.bit_count - index,
        {
            let word = self.bits[index / 64];
            let shift = (index % 64) as u64;
            let ghost below = bits_below(bits, index as nat);
            let ghost next = bits_below(bits, index as nat + 1);
            proof {
                lemma_set_bit(word, shift, shift);
            }
            if word & (1u64 << shift) != 0 {
                proof {
                    assert(next =~= below.insert(index as nat));
                }
                count = count + 1;
            } else {
                proof {
                    assert(next =~= below);
                }
            }
            index = index + 1;
        }
        proof {
            assert(bits_below(bits, index as nat) =~= bits);
        }
        count
    }

    /// Reports whether `new(capacity, fpr_bits)` accepts these arguments: a
    /// positive capacity and rate, and storage whose bit count fits in a `usize`.
    pub fn supports(capacity: usize, fpr_bits: u8) -> (ok: bool)
        ensures
            ok == (capacity > 0 && fpr_bits > 0 && bloom_word_count(capacity as nat, fpr_bits as nat)
                * 64 <= usize::MAX),
    {
        if capacity == 0 || fpr_bits == 0 {
            return false;
        }
        let word_count = word_count_for(capacity, fpr_bits);
        word_count <= (usize::MAX as u128) / 64
    }

    fn base_hashes(&self, key: &str) -> (hashes: (u64, u64))
        ensures
            hashes == (first_hash(key), step_hash(key)),
    {
        (hash(key, FIRST_SEED), hash(key, STEP_SEED) | 1)
    }

    fn locations(first: u64, step: u64, hash_count: u32, bit_count: usize) -> (probes: Vec<usize>)
        requires
            bit_count > 0,
        ensures
            probes@.len() == hash_count,
            forall|r: int| 0 <= r < hash_count ==> #[trigger] probes@[r] == probe(first, step, r as nat, bit_count as nat),
    {
        let mut probes: Vec<usize> = Vec::new();
        let mut round: u32 = 0;
        while round < hash_count
            invariant
                bit_count > 0,
                round <= hash_count,
                probes@.len() == round,
                forall|r: int| 0 <= r < round ==> #[trigger] probes@[r] == probe(first, step, r as nat, bit_count as nat),
            decreases hash_count - round,
        {
            let mixed = first.wrapping_add((round as u64).wrapping_mul(step));
            probes.push((mixed as usize) % bit_count);
            round = round + 1;
        }
        probes
    }
}

/// Words of storage for `capacity` keys at a false-positive rate of `2^-fpr_bits`.
pub fn word_count_for(capacity: usize, fpr_bits: u8) -> (words: u128)
    ensures
        words == bloom_word_count(capacity as nat, fpr_bits as nat),
{
    let x = nearest_double_u128(capacity as u128);
    let wide_bits = fpr_bits as u128;
    assert(x * wide_bits <= 0x2_0000_0000_0000_0000 * 255) by (nonlinear_arith)
        requires
            x <= 0x2_0000_0000_0000_0000,
            wide_bits <= 255,
    ;
    let product = nearest_double_u128(x * wide_bits);
    assert(product * LN_2_DENOMINATOR <= 0x4_0000_0000_0000_0000 * 255 * 0x20_0000_0000_0000) by (nonlinear_arith)
        requires
            product <= 0x4_0000_0000_0000_0000 * 255,
            LN_2_DENOMINATOR == 0x20_0000_0000_0000,
    ;
    let num = product * LN_2_DENOMINATOR;
    let requested = ceil_of_nearest_double_u128(num, LN_2_NUMERATOR);
    proof {
        vstd::arithmetic::div_mod::lemma_div_is_ordered_by_denominator(
            num as int,
            0x10_0000_0000_0000,
            LN_2_NUMERATOR as int,
        );
    }
    let at_least = if requested < 64 {
        64
    } else {
        requested
    };
    (at_least + 63) / 64
}

/// No false negatives: right after `key` is inserted it is reported present, and an
/// insertion never makes a present key absent.
pub proof fn law_no_false_negatives(filter: BloomView, key: &str, other: &str)
    ensures
        filter.insert(key).contains(key),
        filter.contains(other) ==> filter.insert(key).contains(other),
{
}

/// No false negatives over any run of insertions: every inserted key is reported
/// present, every key present before stays present, each insertion is counted, and
/// the geometry and capacity never change.
pub proof fn law_inserted_keys_found(filter: BloomView, keys: Seq<&str>, other: &str)
    ensures
        forall|i: int| 0 <= i < keys.len() ==> filter.insert_all(keys).contains(#[trigger] keys[i]),
        filter.contains(other) ==> filter.insert_all(keys).contains(other),
        filter.insert_all(keys).len == filter.len + keys.len(),
        filter.insert_all(keys).capacity == filter.capacity,
        filter.insert_all(keys).bit_count == filter.bit_count,
        filter.insert_all(keys).hash_count == filter.hash_count,
        filter.bits.subset_of(filter.insert_all(keys).bits),
    decreases keys.len(),
{
    if keys.len() > 0 {
        let rest = keys.drop_last();
        law_inserted_keys_found(filter, rest, other);
        let middle = filter.insert_all(rest);
        let after = filter.insert_all(keys);
        assert(after == middle.insert(keys.last()));
        assert forall|i: int| 0 <= i < keys.len() implies after.contains(#[trigger] keys[i]) by {
            if i < keys.len() - 1 {
                assert(keys[i] == rest[i]);
                assert(middle.contains(rest[i]));
            }
        }
    }
}

/// A filter with no bit set reports no key present.
pub proof fn law_empty_filter_contains_nothing(filter: BloomView, key: &str)
    requires
        filter.bits == Set::<nat>::empty(),
        filter.hash_count >= 1,
        filter.bit_count > 0,
    ensures
        !filter.contains(key),
{
    let k = probe(first_hash(key), step_hash(key), 0, filter.bit_count);
    assert(key_bits(key, filter.hash_count, filter.bit_count).contains(k));
}

/// Every bit of zero is clear.
proof fn lemma_zero_bit(b: u64)
    by (bit_vector)
    requires
        b < 64,
    ensures
        (0u64 >> b) & 1u64 != 1u64,
{
}

/// The probe sequence of a key starts at its first hash and advances by its step
/// hash with the lowest bit set: the step is odd, and otherwise the whole step
/// hash. The two hashes use different seeds.
pub proof fn law_probe_step_is_odd(key: &str)
    ensures
        FIRST_SEED != STEP_SEED,
        first_hash(key) == hash_key(key, FIRST_SEED),
        step_hash(key) % 2 == 1,
        step_hash(key) / 2 == hash_key(key, STEP_SEED) / 2,
{
    let h = hash_key(key, STEP_SEED);
    assert((h | 1u64) % 2 == 1 && (h | 1u64) / 2 == h / 2) by (bit_vector);
}

/// Probe `round` is `first + round * step` reduced modulo `2^64`, taken as a
/// `usize` and reduced modulo the bit count.
pub proof fn law_probe_arithmetic(first: u64, step: u64, round: nat, bit_count: nat)
    ensures
        probe(first, step, round, bit_count) == ((((first as int + (round as u64) as int
            * step as int) % 0x1_0000_0000_0000_0000) as usize) as nat) % bit_count,
{
    let m: int = 0x1_0000_0000_0000_0000;
    let product = (round as u64) as int * step as int;
    let wm = u64_specs::wrapping_mul(round as u64, step);
    assert(wm as int == product % m);
    vstd::arithmetic::div_mod::lemma_add_mod_noop(first as int, product, m);
    vstd::arithmetic::div_mod::lemma_small_mod(first as nat, m as nat);
    let total = first as int + wm as int;
    if total >= m {
        vstd::arithmetic::div_mod::lemma_small_mod((total - m) as nat, m as nat);
        vstd::arithmetic::div_mod::lemma_mod_sub_multiples_vanish(total, m);
    } else {
        vstd::arithmetic::div_mod::lemma_small_mod(total as nat, m as nat);
    }
}

/// Every bit below the bit count is reached: it is the first probe of a key whose
/// first hash is that bit.
pub proof fn law_every_bit_is_reachable(bit: nat, step: u64, bit_count: nat)
    requires
        bit < bit_count <= usize::MAX,
    ensures
        probe(bit as u64, step, 0, bit_count) == bit,
{
    assert((0nat as u64) == 0u64);
    assert(u64_specs::wrapping_mul(0u64, step) == 0);
    assert((bit as u64) as int == bit);
    assert(u64_specs::wrapping_add(bit as u64, 0u64) == bit as u64);
    assert(((bit as u64) as usize) as int == bit);
    vstd::arithmetic::div_mod::lemma_small_mod(bit, bit_count);
}

} // verus!
