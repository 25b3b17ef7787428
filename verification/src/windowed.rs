//! A `(2, 2)` cuckoo filter whose adjacent windows overlap by one slot.
//!
//! A key has two windows of two adjacent slots: its first window, and the window
//! a fingerprint-derived offset further along, modulo the window count. A slot
//! stores the fingerprint together with which of the two windows it is in and
//! its offset within that window, so a stored fingerprint can find its other
//! window without its key.
use vstd::prelude::*;
use vstd::multiset::Multiset;
use vstd::arithmetic::power2::pow2;
use crate::cuckoo::{xorshift, xorshift_iter};
use crate::hash::{hash, hash_key, mix, mix_spec};
use crate::rounding::{
    ceil_of_nearest_double,
    ceil_of_nearest_double_u128,
    nearest_double,
    nearest_double_u128,
};
use crate::packed::{
    PackedSlots,
    fit_width,
    width_mask,
    words_for,
    relocations_undoable,
    lemma_relocation_push,
    lemma_relocation_undo,
};

verus! {

pub const WINDOW_SIZE: usize = 2;

pub const DEFAULT_MAX_KICKS: usize = 500;

pub const FINGERPRINT_SEED: u64 = 0x3c6ef372fe94f82b;

pub const WINDOW_SEED: u64 = 0xa54ff53a5f1d36f1;

pub const OFFSET_SALT: u64 = 0x510e527fade682d1;

pub const RNG_SEED: u64 = 0xbb67ae8584caa73b;

/// The design load `0.94` as the nearest binary64 value: this numerator over `2^51`.
pub const LOAD_NUMERATOR: u128 = 2116691824864133;

/// Slots for `capacity` keys at a 94% load: the binary64 quotient of `capacity`
/// (as the nearest binary64 value) by `0.94`, rounded up, and at least three.
pub open spec fn slot_count_for(capacity: nat) -> nat {
    let wanted = ceil_of_nearest_double(
        nearest_double(capacity) * 0x8_0000_0000_0000,
        LOAD_NUMERATOR as nat,
    );
    if wanted < 3 {
        3
    } else {
        wanted
    }
}

/// Slots that `new` gives a filter for `capacity` keys: `slot_count_for(capacity)`.
pub fn slots_for(capacity: usize) -> (n: u128)
    ensures
        n == slot_count_for(capacity as nat),
        3 <= n <= 0x10_0000_0000_0000_0000,
{
    let x = nearest_double_u128(capacity as u128);
    let num = x * 0x8_0000_0000_0000;
    let wanted = ceil_of_nearest_double_u128(num, LOAD_NUMERATOR);
    proof {
        vstd::arithmetic::div_mod::lemma_div_is_ordered_by_denominator(num as int, 0x4_0000_0000_0000, LOAD_NUMERATOR as int);
    }
    if wanted < 3 {
        3
    } else {
        wanted
    }
}

/// A key's fingerprint: `bits` bits of its hash, never zero.
pub open spec fn fingerprint_of(key: &str, bits: nat) -> u32 {
    let masked = hash_key(key, FINGERPRINT_SEED) & width_mask(bits);
    if masked == 0 {
        1
    } else {
        masked as u32
    }
}

/// A key's first window.
pub open spec fn first_window_of(key: &str, window_count: nat) -> nat {
    ((hash_key(key, WINDOW_SEED) as usize) as nat) % window_count
}

/// The distance from a fingerprint's first window to its second: `1 .. window_count`.
pub open spec fn fingerprint_offset(fingerprint: u32, window_count: nat) -> nat {
    1 + ((mix_spec((fingerprint as u64) ^ OFFSET_SALT) as usize) as nat) % ((window_count
        - 1) as nat)
}

/// The window `fingerprint_offset` after `window`, cyclically.
pub open spec fn add_offset(window: nat, fingerprint: u32, window_count: nat) -> nat {
    (window + fingerprint_offset(fingerprint, window_count)) % window_count
}

/// The window `fingerprint_offset` before `window`, cyclically.
pub open spec fn subtract_offset(window: nat, fingerprint: u32, window_count: nat) -> nat {
    let offset = fingerprint_offset(fingerprint, window_count);
    if window >= offset {
        (window - offset) as nat
    } else {
        (window_count - (offset - window)) as nat
    }
}

/// The slot value for `fingerprint` at `offset` within its window number `choice`.
pub open spec fn encode(fingerprint: u32, choice: nat, offset: nat, bits: nat) -> u32 {
    fingerprint | ((offset as u32) << (bits as u32)) | ((choice as u32) << ((bits + 1) as u32))
}

/// The fingerprint held in a slot value.
pub open spec fn decode_fingerprint(encoded: u32, bits: nat) -> u32 {
    encoded & (((1u32 << (bits as u32)) - 1) as u32)
}

/// The offset within its window recorded in a slot value.
pub open spec fn decode_offset(encoded: u32, bits: nat) -> nat {
    ((encoded >> (bits as u32)) & 1u32) as nat
}

/// Which of its two windows a slot value records.
pub open spec fn decode_choice(encoded: u32, bits: nat) -> nat {
    ((encoded >> ((bits + 1) as u32)) & 1u32) as nat
}

/// The first window of the fingerprint held in slot `slot`.
pub open spec fn stored_first_window(encoded: u32, slot: int, bits: nat, window_count: nat) -> nat {
    let window = (slot - decode_offset(encoded, bits)) as nat;
    if decode_choice(encoded, bits) == 0 {
        window
    } else {
        subtract_offset(window, decode_fingerprint(encoded, bits), window_count)
    }
}

/// A nonzero slot value names a window that exists and a nonzero fingerprint.
pub open spec fn slot_valid(encoded: u32, slot: int, bits: nat, window_count: nat) -> bool {
    encoded == 0 || {
        &&& decode_offset(encoded, bits) <= slot
        &&& slot - decode_offset(encoded, bits) < window_count
        &&& decode_fingerprint(encoded, bits) != 0
    }
}

/// Slot `j` of the four candidate slots of a key whose windows are `first` and `second`.
pub open spec fn coordinate_slot(first: nat, second: nat, j: int) -> nat {
    (if j < 2 {
        first
    } else {
        second
    }) + (j % 2) as nat
}

/// Candidate slot `j` holds `fingerprint` encoded for that slot.
pub open spec fn coordinate_holds(
    slots: Seq<u32>,
    first: nat,
    second: nat,
    fingerprint: u32,
    bits: nat,
    j: int,
) -> bool {
    slots[coordinate_slot(first, second, j) as int] == encode(
        fingerprint,
        (j / 2) as nat,
        (j % 2) as nat,
        bits,
    )
}

/// Some candidate slot holds `fingerprint` encoded for that slot.
pub open spec fn pair_holds(
    slots: Seq<u32>,
    first: nat,
    second: nat,
    fingerprint: u32,
    bits: nat,
) -> bool {
    exists|j: int| 0 <= j < 4 && #[trigger] coordinate_holds(slots, first, second, fingerprint, bits, j)
}

/// Some candidate slot is empty.
pub open spec fn pair_has_room(slots: Seq<u32>, first: nat, second: nat) -> bool {
    exists|j: int| 0 <= j < 4 && slots[#[trigger] coordinate_slot(first, second, j) as int] == 0
}

/// The first empty candidate slot of windows `first` and `second`, or 4 when all
/// four are full.
pub open spec fn first_free_coordinate(slots: Seq<u32>, first: nat, second: nat) -> int {
    if slots[coordinate_slot(first, second, 0) as int] == 0 {
        0
    } else if slots[coordinate_slot(first, second, 1) as int] == 0 {
        1
    } else if slots[coordinate_slot(first, second, 2) as int] == 0 {
        2
    } else if slots[coordinate_slot(first, second, 3) as int] == 0 {
        3
    } else {
        4
    }
}

/// The windows of the fingerprint in a slot value stored at `slot`: its first
/// window and its second.
pub open spec fn stored_windows(encoded: u32, slot: int, bits: nat, window_count: nat) -> (nat, nat) {
    let fingerprint = decode_fingerprint(encoded, bits);
    let current = (slot - decode_offset(encoded, bits)) as nat;
    if decode_choice(encoded, bits) == 0 {
        (current, add_offset(current, fingerprint, window_count))
    } else {
        (subtract_offset(current, fingerprint, window_count), current)
    }
}

/// The relocation walk that starts with `fingerprint` in hand, its windows `first`
/// and `second` full, the generator at `rng`, and at most `kicks` relocations
/// left: each relocation advances the generator, puts the fingerprint, encoded for
/// the slot, into the candidate slot that the new generator state picks, and
/// takes the displaced fingerprint to its own windows, where it goes into the
/// first empty candidate slot if there is one. The result is whether a slot was
/// found, the slots when it was, and the number of relocations made.
#[verifier::opaque]
pub open spec fn relocation_walk(
    slots: Seq<u32>,
    first: nat,
    second: nat,
    fingerprint: u32,
    rng: u64,
    kicks: nat,
    bits: nat,
    window_count: nat,
) -> (bool, Seq<u32>, nat)
    decreases kicks,
{
    if kicks == 0 {
        (false, slots, 0)
    } else {
        let r = xorshift(rng);
        let coordinate = ((r as usize) % 4) as int;
        let slot = coordinate_slot(first, second, coordinate) as int;
        let displaced = slots[slot];
        let after = slots.update(
            slot,
            encode(fingerprint, (coordinate / 2) as nat, (coordinate % 2) as nat, bits),
        );
        let carried = decode_fingerprint(displaced, bits);
        let windows = stored_windows(displaced, slot, bits, window_count);
        if pair_has_room(after, windows.0, windows.1) {
            let j = first_free_coordinate(after, windows.0, windows.1);
            (
                true,
                after.update(
                    coordinate_slot(windows.0, windows.1, j) as int,
                    encode(carried, (j / 2) as nat, (j % 2) as nat, bits),
                ),
                1,
            )
        } else {
            let rest = relocation_walk(
                after,
                windows.0,
                windows.1,
                carried,
                r,
                (kicks - 1) as nat,
                bits,
                window_count,
            );
            (rest.0, rest.1, rest.2 + 1)
        }
    }
}

/// What slot `slot` holding `encoded` contributes to the stored entries.
pub open spec fn slot_entry(encoded: u32, slot: int, bits: nat, window_count: nat) -> Multiset<(u32, nat)> {
    if encoded == 0 {
        Multiset::empty()
    } else {
        Multiset::singleton(
            (
                decode_fingerprint(encoded, bits),
                stored_first_window(encoded, slot, bits, window_count),
            ),
        )
    }
}

/// The stored entries: each nonzero slot as its fingerprint and its first window.
#[verifier::opaque]
pub open spec fn entries_of(slots: Seq<u32>, bits: nat, window_count: nat) -> Multiset<(u32, nat)>
    decreases slots.len(),
{
    if slots.len() == 0 {
        Multiset::empty()
    } else {
        entries_of(slots.drop_last(), bits, window_count).add(
            slot_entry(slots.last(), slots.len() - 1, bits, window_count),
        )
    }
}

/// The abstract state of a windowed cuckoo filter.
pub struct WindowedView {
    /// The encoded fingerprint in each slot, zero for an empty slot; window `w`
    /// is slots `w` and `w + 1`.
    pub slots: Seq<u32>,
    pub window_count: nat,
    pub fingerprint_bits: nat,
    /// Number of stored fingerprints.
    pub len: nat,
    /// State of the relocation generator.
    pub rng: u64,
    pub max_kicks: nat,
}

impl WindowedView {
    /// The stored entries.
    pub open spec fn entries(self) -> Multiset<(u32, nat)> {
        entries_of(self.slots, self.fingerprint_bits, self.window_count)
    }

    pub open spec fn fingerprint(self, key: &str) -> u32 {
        fingerprint_of(key, self.fingerprint_bits)
    }

    pub open spec fn first_window(self, key: &str) -> nat {
        first_window_of(key, self.window_count)
    }

    pub open spec fn second_window(self, key: &str) -> nat {
        add_offset(self.first_window(key), self.fingerprint(key), self.window_count)
    }

    /// The entry a key is stored as.
    pub open spec fn key_entry(self, key: &str) -> (u32, nat) {
        (self.fingerprint(key), self.first_window(key))
    }

    /// A key is reported present when its entry is stored.
    pub open spec fn contains(self, key: &str) -> bool {
        self.entries().contains(self.key_entry(key))
    }

    /// One of the key's four candidate slots is empty.
    pub open spec fn has_room(self, key: &str) -> bool {
        pair_has_room(self.slots, self.first_window(key), self.second_window(key))
    }

    /// The relocation walk an insertion of `key` makes when its four candidate
    /// slots are full.
    pub open spec fn walk(self, key: &str) -> (bool, Seq<u32>, nat) {
        relocation_walk(
            self.slots,
            self.first_window(key),
            self.second_window(key),
            self.fingerprint(key),
            self.rng,
            self.max_kicks,
            self.fingerprint_bits,
            self.window_count,
        )
    }

    /// Same geometry and limits.
    pub open spec fn same_config(self, other: WindowedView) -> bool {
        &&& self.window_count == other.window_count
        &&& self.fingerprint_bits == other.fingerprint_bits
        &&& self.max_kicks == other.max_kicks
        &&& self.slots.len() == other.slots.len()
    }

    /// `after` is `self` with `key` inserted: its entry added, fingerprints
    /// possibly relocated, the count one larger.
    pub open spec fn inserted(self, after: WindowedView, key: &str) -> bool {
        &&& after.same_config(self)
        &&& after.entries() == self.entries().insert(self.key_entry(key))
        &&& after.len == self.len + 1
    }

    /// Candidate slot `j` of a key: the two slots of its first window, then the two
    /// of its second window.
    pub open spec fn candidate_slot(self, key: &str, j: int) -> int {
        coordinate_slot(self.first_window(key), self.second_window(key), j) as int
    }

    /// Candidate slot `j` holds the key's fingerprint encoded for that slot.
    pub open spec fn holds_key_at(self, key: &str, j: int) -> bool {
        coordinate_holds(
            self.slots,
            self.first_window(key),
            self.second_window(key),
            self.fingerprint(key),
            self.fingerprint_bits,
            j,
        )
    }

    /// `after` is `self` with the key's fingerprint, encoded for the slot, put in
    /// the first empty candidate slot.
    pub open spec fn filled_first_free(self, after: WindowedView, key: &str) -> bool {
        exists|j: int|
            0 <= j < 4 && self.slots[#[trigger] self.candidate_slot(key, j)] == 0 && (forall|i: int|
                0 <= i < j ==> self.slots[#[trigger] self.candidate_slot(key, i)] != 0) && after.slots
                == self.slots.update(
                self.candidate_slot(key, j),
                encode(self.fingerprint(key), (j / 2) as nat, (j % 2) as nat, self.fingerprint_bits),
            )
    }

    /// `after` is `self` with candidate slot `j` of the key, the first that holds
    /// the key's encoded fingerprint, emptied.
    pub open spec fn cleared_at(self, after: WindowedView, key: &str, j: int) -> bool {
        &&& 0 <= j < 4
        &&& self.holds_key_at(key, j)
        &&& forall|i: int| 0 <= i < j ==> !#[trigger] self.holds_key_at(key, i)
        &&& after.slots == self.slots.update(self.candidate_slot(key, j), 0)
    }

    /// `after` is `self` with the key's entry removed from one of its slots.
    pub open spec fn deleted(self, after: WindowedView, key: &str) -> bool {
        &&& after.same_config(self)
        &&& after.entries() == self.entries().remove(self.key_entry(key))
        &&& after.len == self.len - 1
        &&& exists|j: int| #[trigger] self.cleared_at(after, key, j)
    }
}

/// A `(2, 2)` cuckoo filter whose adjacent windows overlap by one slot.
#[derive(Clone, Debug)]
pub struct WindowedCuckooFilter {
    slots: PackedSlots,
    window_count: usize,
    fingerprint_bits: u8,
    len: usize,
    rng: u64,
    max_kicks: usize,
}

impl View for WindowedCuckooFilter {
    type V = WindowedView;

    closed spec fn view(&self) -> WindowedView {
        WindowedView {
            slots: self.slots@,
            window_count: self.window_count as nat,
            fingerprint_bits: self.fingerprint_bits as nat,
            len: self.len as nat,
            rng: self.rng,
            max_kicks: self.max_kicks as nat,
        }
    }
}

impl WindowedCuckooFilter {
    /// The slot storage matches the geometry.
    pub closed spec fn geometry_wf(&self) -> bool {
        &&& self.slots.wf()
        &&& self.slots@.len() == self.window_count + 1
        &&& self.window_count >= 2
        &&& (self.window_count + 1) * 3 <= usize::MAX
        &&& 1 <= self.fingerprint_bits <= 30
        &&& self.slots.width() == self.fingerprint_bits + 2
        &&& self.max_kicks > 0
    }

    /// The geometry holds and every nonzero slot names an existing window.
    pub closed spec fn storage_wf(&self) -> bool {
        &&& self.geometry_wf()
        &&& forall|i: int|
            0 <= i < self.slots@.len() ==> slot_valid(
                #[trigger] self.slots@[i],
                i,
                self.fingerprint_bits as nat,
                self.window_count as nat,
            )
    }

    /// The storage is consistent and the count matches the stored entries.
    pub closed spec fn wf(&self) -> bool {
        &&& self.storage_wf()
        &&& self.len == entries_of(
            self.slots@,
            self.fingerprint_bits as nat,
            self.window_count as nat,
        ).len()
    }

    /// Creates a filter for `capacity` keys and a target FPR of `2^-fpr_bits`.
    pub fn new(capacity: usize, fpr_bits: u8) -> (filter: Self)
        requires
            capacity > 0,
            1 <= fpr_bits <= 30,
            slot_count_for(capacity as nat) * (fpr_bits + 2) <= usize::MAX,
        ensures
            filter.wf(),
            filter@.window_count == slot_count_for(capacity as nat) - 1,
            filter@.slots == Seq::new(slot_count_for(capacity as nat), |i: int| 0u32),
            filter@.fingerprint_bits == fpr_bits,
            filter@.len == 0,
            filter@.rng == RNG_SEED,
            filter@.max_kicks == DEFAULT_MAX_KICKS,
    {
        let wanted = slots_for(capacity);
        proof {
            let n = slot_count_for(capacity as nat);
            assert(n * (fpr_bits + 2) >= n * 3) by (nonlinear_arith)
                requires
                    fpr_bits >= 1,
            ;
        }
        let slot_count = wanted as usize;
        let window_count = slot_count - WINDOW_SIZE + 1;
        let slots = PackedSlots::new(slot_count, fpr_bits + 2);
        let filter = Self {
            slots,
            window_count,
            fingerprint_bits: fpr_bits,
            len: 0,
            rng: RNG_SEED,
            max_kicks: DEFAULT_MAX_KICKS,
        };
        proof {
            lemma_entries_empty(filter.slots@, fpr_bits as nat, window_count as nat);
        }
        filter
    }

    /// The same filter with a different relocation limit.
    pub fn with_max_kicks(self, max_kicks: usize) -> (filter: Self)
        requires
            self.wf(),
            max_kicks > 0,
        ensures
            filter.wf(),
            filter@ == (WindowedView { max_kicks: max_kicks as nat, ..self@ }),
    {
        let mut filter = self;
        filter.max_kicks = max_kicks;
        filter
    }

    /// Reports whether `new(capacity, fpr_bits)` accepts these arguments: a
    /// positive capacity, a rate of 1 to 30 bits, and slot storage whose bit count
    /// fits in a `usize`.
    pub fn supports(capacity: usize, fpr_bits: u8) -> (ok: bool)
        ensures
            ok == (capacity > 0 && 1 <= fpr_bits <= 30 && slot_count_for(capacity as nat) * (
            fpr_bits + 2) <= usize::MAX),
    {
        if capacity == 0 || fpr_bits < 1 || fpr_bits > 30 {
            return false;
        }
        let slot_count = slots_for(capacity);
        let width = (fpr_bits + 2) as u128;
        assert(slot_count * width <= 0x10_0000_0000_0000_0000 * 32) by (nonlinear_arith)
            requires
                slot_count <= 0x10_0000_0000_0000_0000,
                width <= 32,
        ;
        slot_count * width <= usize::MAX as u128
    }

    /// Inserts a key's fingerprint, relocating stored fingerprints if all four of
    /// its candidate slots are full. Returns `false`, with the slots as they were,
    /// when `max_kicks` relocations did not free a slot.
    #[verifier::rlimit(40)]
    pub fn insert(&mut self, key: &str) -> (inserted: bool)
        requires
            old(self).wf(),
        ensures
            final(self).wf(),
            final(self)@.same_config(old(self)@),
            old(self)@.has_room(key) ==> inserted,
            old(self)@.has_room(key) ==> old(self)@.filled_first_free(final(self)@, key)
                && final(self)@.rng == old(self)@.rng,
            inserted ==> old(self)@.inserted(final(self)@, key),
            !inserted ==> final(self)@.slots == old(self)@.slots && final(self)@.len == old(self)@.len,
            !old(self)@.has_room(key) ==> {
                let walk = old(self)@.walk(key);
                &&& inserted == walk.0
                &&& inserted ==> final(self)@.slots == walk.1
                &&& final(self)@.rng == xorshift_iter(old(self)@.rng, walk.2)
            },
    {
        let mut fingerprint = self.fingerprint(key);
        let mut first = self.first_window(key);
        let mut second = self.add_offset(first, fingerprint);
        let ghost orig = self@;
        let ghost k = self.fingerprint_bits as nat;
        let ghost wc = self.window_count as nat;
        let ghost target = orig.entries().insert(orig.key_entry(key));
        proof {
            assert(orig.rng == xorshift_iter(orig.rng, 0));
        }
        let ghost start = self@.slots;
        if self.insert_empty(fingerprint, first, second) {
            proof {
                let j = choose|j: int|
                    0 <= j < 4 && start[#[trigger] coordinate_slot(first as nat, second as nat, j) as int] == 0
                        && (forall|i: int|
                        0 <= i < j ==> start[#[trigger] coordinate_slot(first as nat, second as nat, i) as int] != 0)
                        && self@.slots == start.update(
                        coordinate_slot(first as nat, second as nat, j) as int,
                        encode(fingerprint, (j / 2) as nat, (j % 2) as nat, k),
                    );
                lemma_placed(start, self@.slots, first as nat, second as nat, fingerprint, k, wc, j);
                lemma_entries_len(self@.slots, k, wc);
                assert(orig.slots[orig.candidate_slot(key, j)] == 0);
            }
            self.len = self.len + 1;
            return true;
        }
        let mut path: Vec<(usize, u32)> = Vec::with_capacity(self.max_kicks);
        let ghost mut history: Seq<Seq<u32>> = seq![self@.slots];
        let ghost mut steps: nat = 0;
        let ghost width = k + 2;
        let mut kicks: usize = 0;
        let ghost walk = orig.walk(key);
        while kicks < self.max_kicks
            invariant
                orig == old(self)@,
                walk == orig.walk(key),
                ({
                    let rest = relocation_walk(
                        self@.slots,
                        first as nat,
                        second as nat,
                        fingerprint,
                        self.rng,
                        (self.max_kicks - kicks) as nat,
                        k,
                        wc,
                    );
                    &&& walk.0 == rest.0
                    &&& walk.1 == rest.1
                    &&& walk.2 == kicks + rest.2
                }),
                steps == kicks,
                self.storage_wf(),
                self@.same_config(orig),
                self.len == orig.len,
                k == self.fingerprint_bits,
                wc == self.window_count,
                width == k + 2,
                orig.entries().len() == orig.len,
                target == orig.entries().insert(orig.key_entry(key)),
                !orig.has_room(key),
                first < wc,
                second == add_offset(first as nat, fingerprint, wc),
                fingerprint != 0,
                fingerprint < (1u32 << (k as u32)),
                !pair_has_room(self@.slots, first as nat, second as nat),
                entries_of(self@.slots, k, wc).insert((fingerprint, first as nat)) == target,
                kicks <= self.max_kicks,
                path@.len() == kicks,
                relocations_undoable(path@, history, width),
                history[0] == orig.slots,
                history.last() == self@.slots,
                self.rng == xorshift_iter(orig.rng, steps),
            decreases self.max_kicks - kicks,
        {
            let ghost walk_start = self@.slots;
            let ghost first_before = first;
            let ghost second_before = second;
            let ghost carried_before = fingerprint;
            let ghost rng_before = self.rng;
            let r = self.random();
            proof {
                steps = steps + 1;
                lemma_offsets(first as nat, fingerprint, wc);
            }
            let coordinate = (r as usize) % (2 * WINDOW_SIZE);
            let choice = coordinate / WINDOW_SIZE;
            let window_offset = coordinate % WINDOW_SIZE;
            let window = if choice == 0 {
                first
            } else {
                second
            };
            let slot = window + window_offset;
            let encoded = self.encode(fingerprint, choice, window_offset);
            let ghost before = self@.slots;
            let ghost j = coordinate as int;
            proof {
                self.slots.lemma_values_fit();
                lemma_coordinate_entry(first as nat, second as nat, fingerprint, k, wc, j);
            }
            let displaced = self.slots.swap(slot, encoded);
            path.push((slot, displaced));
            proof {
                lemma_kick(before, j, first as nat, second as nat, fingerprint, k, wc, target);
                lemma_relocation_push(path@.drop_last(), history, (slot, displaced), self@.slots, width);
                history = history.push(self@.slots);
                lemma_decode(displaced, k as u32);
            }
            fingerprint = self.decode_fingerprint(displaced);
            let old_offset = self.decode_window_offset(displaced);
            let old_choice = self.decode_choice(displaced);
            let current = slot - old_offset;
            proof {
                lemma_offsets(current as nat, fingerprint, wc);
            }
            if old_choice == 0 {
                first = current;
                second = self.add_offset(current, fingerprint);
            } else {
                second = current;
                first = self.subtract_offset(current, fingerprint);
            }
            proof {
                lemma_offsets(first as nat, fingerprint, wc);
            }
            let ghost placed_from = self@.slots;
            if self.insert_empty(fingerprint, first, second) {
                proof {
                    let jj = choose|jj: int|
                        0 <= jj < 4 && placed_from[#[trigger] coordinate_slot(first as nat, second as nat, jj) as int] == 0
                            && (forall|i: int|
                            0 <= i < jj ==> placed_from[#[trigger] coordinate_slot(first as nat, second as nat, i) as int] != 0)
                            && self@.slots == placed_from.update(
                            coordinate_slot(first as nat, second as nat, jj) as int,
                            encode(fingerprint, (jj / 2) as nat, (jj % 2) as nat, k),
                        );
                    lemma_placed(placed_from, self@.slots, first as nat, second as nat, fingerprint, k, wc, jj);
                    lemma_entries_len(self@.slots, k, wc);
                    lemma_first_free(placed_from, first as nat, second as nat, jj);
                    lemma_walk_step(walk_start, first_before as nat, second_before as nat, carried_before, rng_before, (self.max_kicks - kicks) as nat, k, wc, j, slot as int);
                }
                self.len = self.len + 1;
                return true;
            }
            proof {
                let rest = relocation_walk(
                    self@.slots,
                    first as nat,
                    second as nat,
                    fingerprint,
                    self.rng,
                    (self.max_kicks - (kicks + 1)) as nat,
                    k,
                    wc,
                );
                lemma_walk_step(walk_start, first_before as nat, second_before as nat, carried_before, rng_before, (self.max_kicks - kicks) as nat, k, wc, j, slot as int);
            }
            kicks = kicks + 1;
        }
        proof {
            lemma_walk_done(self@.slots, first as nat, second as nat, fingerprint, self.rng, k, wc);
        }
        let mut undo = path.len();
        while undo > 0
            invariant
                orig == old(self)@,
                self.geometry_wf(),
                self@.same_config(orig),
                self.len == orig.len,
                orig.entries().len() == orig.len,
                k == self.fingerprint_bits,
                width == k + 2,
                !orig.has_room(key),
                undo <= path@.len(),
                relocations_undoable(path@, history, width),
                history[0] == orig.slots,
                history[undo as int] == self@.slots,
                self.rng == xorshift_iter(orig.rng, steps),
                walk == orig.walk(key),
                !walk.0,
                steps == walk.2,
            decreases undo,
        {
            undo = undo - 1;
            let (slot, previous) = path[undo];
            proof {
                lemma_relocation_undo(path@, history, width, undo as int);
            }
            self.slots.set(slot, previous);
        }
        false
    }

    /// Reports whether one of the key's candidate slots holds its fingerprint
    /// encoded for that slot.
    pub fn contains(&self, key: &str) -> (found: bool)
        requires
            self.wf(),
        ensures
            found == self@.contains(key),
    {
        let fingerprint = self.fingerprint(key);
        let first = self.first_window(key);
        let second = self.add_offset(first, fingerprint);
        proof {
            self.slots.lemma_values_fit();
            lemma_pair_slots(self@.slots, self.fingerprint_bits as nat, self.window_count as nat, first as nat, fingerprint);
        }
        let coordinates = Self::coordinates(first, second);
        let mut j: usize = 0;
        while j < 4
            invariant
                self.wf(),
                first < self.window_count,
                second < self.window_count,
                forall|i: int| 0 <= i < 4 ==> #[trigger] coordinates@[i] == (
                    coordinate_slot(first as nat, second as nat, i) as usize,
                    (i / 2) as usize,
                    (i % 2) as usize,
                ),
                fingerprint != 0,
                fingerprint < (1u32 << (self.fingerprint_bits as u32)),
                self@.contains(key) <==> pair_holds(self@.slots, first as nat, second as nat, fingerprint, self.fingerprint_bits as nat),
                j <= 4,
                forall|i: int| 0 <= i < j ==> !#[trigger] coordinate_holds(self@.slots, first as nat, second as nat, fingerprint, self.fingerprint_bits as nat, i),
            decreases 4 - j,
        {
            let (slot, choice, offset) = coordinates[j];
            if self.slots.get(slot) == self.encode(fingerprint, choice, offset) {
                proof {
                    assert(coordinate_holds(self@.slots, first as nat, second as nat, fingerprint, self.fingerprint_bits as nat, j as int));
                }
                return true;
            }
            j = j + 1;
        }
        false
    }

    /// Removes one copy of the key's fingerprint from its candidate slots.
    ///
    /// Deleting a key that was never inserted can remove a colliding key's
    /// fingerprint.
    pub fn delete(&mut self, key: &str) -> (deleted: bool)
        requires
            old(self).wf(),
        ensures
            final(self).wf(),
            deleted == old(self)@.contains(key),
            deleted ==> old(self)@.deleted(final(self)@, key),
            !deleted ==> final(self)@ == old(self)@,
            final(self)@.rng == old(self)@.rng,
    {
        let fingerprint = self.fingerprint(key);
        let first = self.first_window(key);
        let second = self.add_offset(first, fingerprint);
        let ghost orig = self@;
        let ghost k = self.fingerprint_bits as nat;
        let ghost wc = self.window_count as nat;
        proof {
            self.slots.lemma_values_fit();
            lemma_pair_slots(self@.slots, k, wc, first as nat, fingerprint);
        }
        let coordinates = Self::coordinates(first, second);
        let mut j: usize = 0;
        while j < 4
            invariant
                orig == old(self)@,
                self.wf(),
                self@ == orig,
                k == self.fingerprint_bits,
                wc == self.window_count,
                first == orig.first_window(key),
                second == orig.second_window(key),
                fingerprint == orig.fingerprint(key),
                first < wc,
                second == add_offset(first as nat, fingerprint, wc),
                forall|i: int| 0 <= i < 4 ==> #[trigger] coordinates@[i] == (
                    coordinate_slot(first as nat, second as nat, i) as usize,
                    (i / 2) as usize,
                    (i % 2) as usize,
                ),
                fingerprint != 0,
                fingerprint < (1u32 << (k as u32)),
                orig.contains(key) <==> pair_holds(orig.slots, first as nat, second as nat, fingerprint, k),
                j <= 4,
                forall|i: int| 0 <= i < j ==> !#[trigger] coordinate_holds(orig.slots, first as nat, second as nat, fingerprint, k, i),
            decreases 4 - j,
        {
            let (slot, choice, offset) = coordinates[j];
            if self.slots.get(slot) == self.encode(fingerprint, choice, offset) {
                proof {
                    lemma_zero_fits((k + 2) as u64);
                }
                self.slots.set(slot, 0);
                proof {
                    lemma_cleared(orig.slots, first as nat, second as nat, fingerprint, k, wc, j as int);
                }
                self.len = self.len - 1;
                proof {
                    assert(orig.cleared_at(self@, key, j as int));
                }
                return true;
            }
            j = j + 1;
        }
        false
    }

    /// Number of stored fingerprints.
    pub fn len(&self) -> (n: usize)
        requires
            self.wf(),
        ensures
            n == self@.len,
            n == self@.entries().len(),
            n <= self@.slots.len(),
    {
        proof {
            lemma_entries_len(self@.slots, self@.fingerprint_bits, self@.window_count);
        }
        self.len
    }

    /// Reports whether no fingerprint is stored.
    pub fn is_empty(&self) -> (empty: bool)
        requires
            self.wf(),
        ensures
            empty == (self@.len == 0),
            empty == (self@.entries().len() == 0),
    {
        self.len == 0
    }

    /// Total number of slots: one more than the number of windows.
    pub fn slot_count(&self) -> (n: usize)
        requires
            self.wf(),
        ensures
            n == self@.window_count + 1,
            n == self@.slots.len(),
    {
        self.window_count + WINDOW_SIZE - 1
    }

    /// Bytes of packed slot storage.
    pub fn memory_bytes(&self) -> (n: usize)
        requires
            self.wf(),
        ensures
            n == words_for(self@.slots.len(), self@.fingerprint_bits + 2) * 8,
    {
        self.slots.bytes()
    }

    /// Bits per fingerprint.
    pub fn fingerprint_bits(&self) -> (bits: u8)
        ensures
            bits == self@.fingerprint_bits,
    {
        self.fingerprint_bits
    }

    /// Bits per slot: the fingerprint, the offset bit and the window-choice bit.
    pub fn bits_per_slot(&self) -> (bits: u8)
        requires
            self.wf(),
        ensures
            bits == self@.fingerprint_bits + 2,
    {
        self.fingerprint_bits + 2
    }

    /// Puts the fingerprint, encoded for the slot, in the first empty candidate slot.
    fn insert_empty(&mut self, fingerprint: u32, first: usize, second: usize) -> (placed: bool)
        requires
            old(self).storage_wf(),
            first < old(self).window_count,
            second < old(self).window_count,
            fingerprint != 0,
            fingerprint < (1u32 << (old(self).fingerprint_bits as u32)),
        ensures
            final(self).storage_wf(),
            final(self)@.same_config(old(self)@),
            final(self).len == old(self).len,
            final(self).rng == old(self).rng,
            placed == pair_has_room(old(self)@.slots, first as nat, second as nat),
            placed ==> exists|j: int|
                0 <= j < 4 && old(self)@.slots[#[trigger] coordinate_slot(first as nat, second as nat, j) as int]
                    == 0 && (forall|i: int|
                    0 <= i < j ==> old(self)@.slots[#[trigger] coordinate_slot(first as nat, second as nat, i) as int]
                        != 0) && final(self)@.slots == old(self)@.slots.update(
                    coordinate_slot(first as nat, second as nat, j) as int,
                    encode(fingerprint, (j / 2) as nat, (j % 2) as nat, old(self).fingerprint_bits as nat),
                ),
            !placed ==> final(self)@.slots == old(self)@.slots,
    {
        let coordinates = Self::coordinates(first, second);
        let mut j: usize = 0;
        while j < 4
            invariant
                self.slots == old(self).slots,
                self.window_count == old(self).window_count,
                self.fingerprint_bits == old(self).fingerprint_bits,
                self.len == old(self).len,
                self.rng == old(self).rng,
                self.max_kicks == old(self).max_kicks,
                self.storage_wf(),
                first < self.window_count,
                second < self.window_count,
                fingerprint != 0,
                fingerprint < (1u32 << (self.fingerprint_bits as u32)),
                forall|i: int| 0 <= i < 4 ==> #[trigger] coordinates@[i] == (
                    coordinate_slot(first as nat, second as nat, i) as usize,
                    (i / 2) as usize,
                    (i % 2) as usize,
                ),
                j <= 4,
                forall|i: int| 0 <= i < j ==> self@.slots[#[trigger] coordinate_slot(first as nat, second as nat, i) as int] != 0,
            decreases 4 - j,
        {
            let (slot, choice, offset) = coordinates[j];
            if self.slots.get(slot) == 0 {
                let encoded = self.encode(fingerprint, choice, offset);
                proof {
                    lemma_encode(fingerprint, choice as u32, offset as u32, self.fingerprint_bits as u32);
                }
                self.slots.set(slot, encoded);
                return true;
            }
            j = j + 1;
        }
        false
    }

    /// The four candidate slots of windows `first` and `second`, each with its
    /// window choice and its offset within the window.
    fn coordinates(first: usize, second: usize) -> (c: [(usize, usize, usize); 4])
        requires
            first < usize::MAX,
            second < usize::MAX,
        ensures
            forall|i: int| 0 <= i < 4 ==> #[trigger] c@[i] == (
                coordinate_slot(first as nat, second as nat, i) as usize,
                (i / 2) as usize,
                (i % 2) as usize,
            ),
    {
        [(first, 0, 0), (first + 1, 0, 1), (second, 1, 0), (second + 1, 1, 1)]
    }

    fn fingerprint(&self, key: &str) -> (f: u32)
        requires
            self.geometry_wf(),
        ensures
            f == fingerprint_of(key, self.fingerprint_bits as nat),
            f != 0,
            f < (1u32 << (self.fingerprint_bits as u32)),
    {
        proof {
            crate::packed::lemma_low_mask_nonzero(self.fingerprint_bits as u64);
        }
        let mask = (1u64 << (self.fingerprint_bits as u64)) - 1;
        let masked = hash(key, FINGERPRINT_SEED) & mask;
        proof {
            lemma_fingerprint_range(hash_key(key, FINGERPRINT_SEED), self.fingerprint_bits as u64, mask);
        }
        if masked == 0 {
            1
        } else {
            masked as u32
        }
    }

    fn first_window(&self, key: &str) -> (w: usize)
        requires
            self.geometry_wf(),
        ensures
            w == first_window_of(key, self.window_count as nat),
            w < self.window_count,
    {
        (hash(key, WINDOW_SEED) as usize) % self.window_count
    }

    fn fingerprint_offset(&self, fingerprint: u32) -> (offset: usize)
        requires
            self.geometry_wf(),
        ensures
            offset == fingerprint_offset(fingerprint, self.window_count as nat),
            1 <= offset < self.window_count,
    {
        proof {
            lemma_offsets(0, fingerprint, self.window_count as nat);
        }
        1 + (mix((fingerprint as u64) ^ OFFSET_SALT) as usize) % (self.window_count - 1)
    }

    fn add_offset(&self, window: usize, fingerprint: u32) -> (next: usize)
        requires
            self.geometry_wf(),
            window < self.window_count,
        ensures
            next == add_offset(window as nat, fingerprint, self.window_count as nat),
            next < self.window_count,
    {
        proof {
            lemma_offsets(window as nat, fingerprint, self.window_count as nat);
        }
        (window + self.fingerprint_offset(fingerprint)) % self.window_count
    }

    fn subtract_offset(&self, window: usize, fingerprint: u32) -> (previous: usize)
        requires
            self.geometry_wf(),
            window < self.window_count,
        ensures
            previous == subtract_offset(window as nat, fingerprint, self.window_count as nat),
            previous < self.window_count,
    {
        proof {
            lemma_offsets(window as nat, fingerprint, self.window_count as nat);
        }
        let offset = self.fingerprint_offset(fingerprint);
        if window >= offset {
            window - offset
        } else {
            self.window_count - (offset - window)
        }
    }

    fn encode(&self, fingerprint: u32, choice: usize, window_offset: usize) -> (encoded: u32)
        requires
            self.geometry_wf(),
            choice <= 1,
            window_offset <= 1,
        ensures
            encoded == encode(fingerprint, choice as nat, window_offset as nat, self.fingerprint_bits as nat),
    {
        fingerprint | (window_offset as u32) << (self.fingerprint_bits as u32) | (choice as u32) << ((
        self.fingerprint_bits + 1) as u32)
    }

    fn decode_fingerprint(&self, encoded: u32) -> (fingerprint: u32)
        requires
            self.geometry_wf(),
        ensures
            fingerprint == decode_fingerprint(encoded, self.fingerprint_bits as nat),
    {
        proof {
            lemma_fingerprint_range(0, self.fingerprint_bits as u64, ((1u64 << (self.fingerprint_bits as u64)) - 1) as u64);
        }
        encoded & ((1u32 << (self.fingerprint_bits as u32)) - 1)
    }

    fn decode_window_offset(&self, encoded: u32) -> (offset: usize)
        requires
            self.geometry_wf(),
        ensures
            offset == decode_offset(encoded, self.fingerprint_bits as nat),
    {
        ((encoded >> (self.fingerprint_bits as u32)) & 1) as usize
    }

    fn decode_choice(&self, encoded: u32) -> (choice: usize)
        requires
            self.geometry_wf(),
        ensures
            choice == decode_choice(encoded, self.fingerprint_bits as nat),
    {
        ((encoded >> ((self.fingerprint_bits + 1) as u32)) & 1) as usize
    }

    /// Advances the xorshift64 generator and returns its new state.
    fn random(&mut self) -> (r: u64)
        ensures
            final(self).rng == xorshift(old(self).rng),
            r == final(self).rng,
            final(self).slots == old(self).slots,
            final(self).window_count == old(self).window_count,
            final(self).fingerprint_bits == old(self).fingerprint_bits,
            final(self).len == old(self).len,
            final(self).max_kicks == old(self).max_kicks,
    {
        self.rng = self.rng ^ (self.rng << 13);
        self.rng = self.rng ^ (self.rng >> 7);
        self.rng = self.rng ^ (self.rng << 17);
        self.rng
    }
}

/// A successful insert makes the key present and keeps every key that was present.
pub proof fn law_insert_keeps_keys(before: WindowedView, after: WindowedView, key: &str, other: &str)
    requires
        before.inserted(after, key),
    ensures
        after.contains(key),
        before.contains(other) ==> after.contains(other),
{
}

/// A failed insert, which leaves the slots as they were, leaves every key's
/// membership as it was.
pub proof fn law_failed_insert_keeps_keys(before: WindowedView, after: WindowedView, other: &str)
    requires
        after.same_config(before),
        after.slots == before.slots,
    ensures
        after.entries() == before.entries(),
        after.contains(other) == before.contains(other),
{
}

/// Deleting a key right after inserting it gives back the stored entries and count.
pub proof fn law_delete_undoes_insert(before: WindowedView, middle: WindowedView, after: WindowedView, key: &str)
    requires
        before.inserted(middle, key),
        middle.deleted(after, key),
    ensures
        after.entries() == before.entries(),
        after.len == before.len,
{
}

/// Deleting a key keeps every key with a different entry present.
pub proof fn law_delete_keeps_other_keys(before: WindowedView, after: WindowedView, key: &str, other: &str)
    requires
        before.deleted(after, key),
        before.contains(other),
        before.key_entry(other) != before.key_entry(key),
    ensures
        after.contains(other),
{
}

/// Deleting the only stored copy of a key's entry makes the key absent, and with
/// it every key that shares the entry.
pub proof fn law_delete_last_copy(before: WindowedView, after: WindowedView, key: &str, other: &str)
    requires
        before.deleted(after, key),
        before.entries().count(before.key_entry(key)) == 1,
        before.key_entry(other) == before.key_entry(key),
    ensures
        !after.contains(other),
{
}

/// No false negatives over inserts and deletes: let `stored` be entries that
/// `before` holds (those of the keys inserted and not yet deleted). A successful
/// insert holds them and the new key's entry; a failed insert still holds them; a
/// successful delete of a key whose entry is among them holds the rest.
pub proof fn law_stored_entries_kept(
    before: WindowedView,
    after: WindowedView,
    key: &str,
    stored: Multiset<(u32, nat)>,
)
    requires
        stored.subset_of(before.entries()),
    ensures
        before.inserted(after, key) ==> stored.insert(before.key_entry(key)).subset_of(
            after.entries(),
        ),
        after.same_config(before) && after.slots == before.slots ==> stored.subset_of(
            after.entries(),
        ),
        before.deleted(after, key) && stored.contains(before.key_entry(key)) ==> stored.remove(
            before.key_entry(key),
        ).subset_of(after.entries()),
{
}

/// A key whose entry is among entries the filter holds is reported present.
pub proof fn law_stored_key_found(filter: WindowedView, stored: Multiset<(u32, nat)>, key: &str)
    requires
        stored.subset_of(filter.entries()),
        stored.contains(filter.key_entry(key)),
    ensures
        filter.contains(key),
{
}

/// The windows of a fingerprint: adding its offset gives another window in range,
/// and subtracting the offset undoes it, both ways round.
pub proof fn law_offsets_invert(window: nat, fingerprint: u32, window_count: nat)
    requires
        window_count >= 2,
        window < window_count,
    ensures
        add_offset(window, fingerprint, window_count) < window_count,
        add_offset(window, fingerprint, window_count) != window,
        subtract_offset(add_offset(window, fingerprint, window_count), fingerprint, window_count)
            == window,
        subtract_offset(window, fingerprint, window_count) < window_count,
        add_offset(subtract_offset(window, fingerprint, window_count), fingerprint, window_count)
            == window,
{
    lemma_offsets(window, fingerprint, window_count);
}

/// A slot value encodes a nonzero fingerprint of `bits` bits with its window
/// choice and offset into a nonzero value of `bits + 2` bits, and decoding gives
/// the three parts back.
pub proof fn law_encode_decode(fingerprint: u32, choice: nat, offset: nat, bits: nat)
    requires
        1 <= bits <= 30,
        1 <= fingerprint < (1u32 << (bits as u32)),
        choice <= 1,
        offset <= 1,
    ensures
        encode(fingerprint, choice, offset, bits) != 0,
        fit_width(encode(fingerprint, choice, offset, bits), bits + 2) == encode(
            fingerprint,
            choice,
            offset,
            bits,
        ),
        decode_fingerprint(encode(fingerprint, choice, offset, bits), bits) == fingerprint,
        decode_offset(encode(fingerprint, choice, offset, bits), bits) == offset,
        decode_choice(encode(fingerprint, choice, offset, bits), bits) == choice,
{
    lemma_encode(fingerprint, choice as u32, offset as u32, bits as u32);
}

/// A filter whose slots are all empty reports no key present.
pub proof fn law_empty_filter_contains_nothing(filter: WindowedView, key: &str)
    requires
        forall|i: int| 0 <= i < filter.slots.len() ==> filter.slots[i] == 0,
    ensures
        !filter.contains(key),
        filter.entries().len() == 0,
{
    lemma_entries_empty(filter.slots, filter.fingerprint_bits, filter.window_count);
}

/// One relocation of the walk: it ends with the displaced fingerprint placed when
/// its windows have room, and goes on from there otherwise.
proof fn lemma_walk_step(
    slots: Seq<u32>,
    first: nat,
    second: nat,
    fingerprint: u32,
    rng: u64,
    kicks: nat,
    bits: nat,
    window_count: nat,
    coordinate: int,
    slot: int,
)
    requires
        kicks > 0,
        coordinate == ((xorshift(rng) as usize) % 4) as int,
        slot == coordinate_slot(first, second, coordinate) as int,
    ensures
        ({
            let displaced = slots[slot];
            let after = slots.update(
                slot,
                encode(fingerprint, (coordinate / 2) as nat, (coordinate % 2) as nat, bits),
            );
            let carried = decode_fingerprint(displaced, bits);
            let windows = stored_windows(displaced, slot, bits, window_count);
            let walk = relocation_walk(slots, first, second, fingerprint, rng, kicks, bits, window_count);
            let rest = relocation_walk(
                after,
                windows.0,
                windows.1,
                carried,
                xorshift(rng),
                (kicks - 1) as nat,
                bits,
                window_count,
            );
            let j = first_free_coordinate(after, windows.0, windows.1);
            &&& pair_has_room(after, windows.0, windows.1) ==> walk == (
                true,
                after.update(
                    coordinate_slot(windows.0, windows.1, j) as int,
                    encode(carried, (j / 2) as nat, (j % 2) as nat, bits),
                ),
                1nat,
            )
            &&& !pair_has_room(after, windows.0, windows.1) ==> walk == (rest.0, rest.1, rest.2 + 1)
        }),
{
    reveal(relocation_walk);
}

/// With no relocations left the walk gives up.
proof fn lemma_walk_done(
    slots: Seq<u32>,
    first: nat,
    second: nat,
    fingerprint: u32,
    rng: u64,
    bits: nat,
    window_count: nat,
)
    ensures
        relocation_walk(slots, first, second, fingerprint, rng, 0, bits, window_count) == (
            false,
            slots,
            0nat,
        ),
{
    reveal(relocation_walk);
}

/// The first empty candidate slot is the one before which every candidate is full.
proof fn lemma_first_free(slots: Seq<u32>, first: nat, second: nat, j: int)
    requires
        0 <= j < 4,
        slots[coordinate_slot(first, second, j) as int] == 0,
        forall|i: int|
            0 <= i < j ==> slots[#[trigger] coordinate_slot(first, second, i) as int] != 0,
    ensures
        first_free_coordinate(slots, first, second) == j,
{
    if j >= 1 {
        assert(slots[coordinate_slot(first, second, 0) as int] != 0);
    }
    if j >= 2 {
        assert(slots[coordinate_slot(first, second, 1) as int] != 0);
    }
    if j >= 3 {
        assert(slots[coordinate_slot(first, second, 2) as int] != 0);
    }
}

/// Encoding packs a fingerprint below `k` bits, the offset at bit `k` and the
/// choice at bit `k + 1`; decoding reads them back.
proof fn lemma_encode(f: u32, c: u32, o: u32, k: u32)
    by (bit_vector)
    requires
        1 <= k <= 30,
        c <= 1,
        o <= 1,
        f < (1u32 << k),
    ensures
        ((f | (o << k) | (c << ((k + 1) as u32))) & (((1u32 << k) - 1) as u32)) == f,
        (((f | (o << k) | (c << ((k + 1) as u32))) >> k) & 1u32) == o,
        (((f | (o << k) | (c << ((k + 1) as u32))) >> ((k + 1) as u32)) & 1u32) == c,
        f != 0 ==> (f | (o << k) | (c << ((k + 1) as u32))) != 0,
        ((((f | (o << k) | (c << ((k + 1) as u32))) as u64) & (((1u64 << ((k + 2) as u64)) - 1) as u64)) as u32)
            == (f | (o << k) | (c << ((k + 1) as u32))),
{
}

/// A value of `k + 2` bits is the encoding of its decoded parts.
proof fn lemma_decode(e: u32, k: u32)
    by (bit_vector)
    requires
        1 <= k <= 30,
        (((e as u64) & (((1u64 << ((k + 2) as u64)) - 1) as u64)) as u32) == e,
    ensures
        ((e & (((1u32 << k) - 1) as u32)) | (((e >> k) & 1u32) << k) | (((e >> ((k + 1) as u32))
            & 1u32) << ((k + 1) as u32))) == e,
        (e & (((1u32 << k) - 1) as u32)) < (1u32 << k),
        ((e >> k) & 1u32) <= 1,
        ((e >> ((k + 1) as u32)) & 1u32) <= 1,
{
}

/// A hash masked to `k` bits, or one, is below `2^k`.
proof fn lemma_fingerprint_range(h: u64, k: u64, m: u64)
    by (bit_vector)
    requires
        1 <= k <= 30,
        m == ((1u64 << k) - 1) as u64,
    ensures
        (h & m) <= 0xffff_ffffu64,
        ((h & m) as u32) < (1u32 << (k as u32)),
        1u32 < (1u32 << (k as u32)),
        (1u32 << (k as u32)) >= 1,
{
}

/// Zero fits in any slot width.
proof fn lemma_zero_fits(w: u64)
    by (bit_vector)
    ensures
        (((0u32 as u64) & (((1u64 << w) - 1) as u64)) as u32) == 0u32,
{
}

/// The offset lies in `1 .. window_count`; adding and subtracting it are inverse
/// bijections of the windows.
proof fn lemma_offsets(w: nat, f: u32, window_count: nat)
    requires
        window_count >= 2,
        w < window_count,
    ensures
        1 <= fingerprint_offset(f, window_count) < window_count,
        add_offset(w, f, window_count) < window_count,
        subtract_offset(w, f, window_count) < window_count,
        add_offset(w, f, window_count) != w,
        subtract_offset(add_offset(w, f, window_count), f, window_count) == w,
        add_offset(subtract_offset(w, f, window_count), f, window_count) == w,
{
    let x = (mix_spec((f as u64) ^ OFFSET_SALT) as usize) as nat;
    let m = (window_count - 1) as nat;
    assert(x % m < m) by (nonlinear_arith)
        requires
            m >= 1,
    ;
    let o = fingerprint_offset(f, window_count);
    let sum = w + o;
    if sum < window_count {
        assert(sum % window_count == sum) by (nonlinear_arith)
            requires
                0 <= sum < window_count,
        ;
    } else {
        assert(sum % window_count == sum - window_count) by (nonlinear_arith)
            requires
                window_count <= sum < 2 * window_count,
        ;
    }
    let back = subtract_offset(w, f, window_count);
    let forth = back + o;
    if forth < window_count {
        assert(forth % window_count == forth) by (nonlinear_arith)
            requires
                0 <= forth < window_count,
        ;
    } else {
        assert(forth % window_count == forth - window_count) by (nonlinear_arith)
            requires
                window_count <= forth < 2 * window_count,
        ;
    }
}

/// Replacing one slot swaps that slot's contribution to the entries.
proof fn lemma_entries_update(slots: Seq<u32>, i: int, v: u32, bits: nat, window_count: nat)
    requires
        0 <= i < slots.len(),
    ensures
        entries_of(slots.update(i, v), bits, window_count).add(
            slot_entry(slots[i], i, bits, window_count),
        ) =~= entries_of(slots, bits, window_count).add(slot_entry(v, i, bits, window_count)),
    decreases slots.len(),
{
    reveal(entries_of);
    let updated = slots.update(i, v);
    let last = slots.len() - 1;
    assert(entries_of(updated, bits, window_count) == entries_of(updated.drop_last(), bits, window_count).add(
        slot_entry(updated[last], last, bits, window_count),
    ));
    assert(entries_of(slots, bits, window_count) == entries_of(slots.drop_last(), bits, window_count).add(
        slot_entry(slots[last], last, bits, window_count),
    ));
    if i == last {
        assert(updated.drop_last() =~= slots.drop_last());
    } else {
        assert(updated.drop_last() =~= slots.drop_last().update(i, v));
        lemma_entries_update(slots.drop_last(), i, v, bits, window_count);
        let lhs = entries_of(updated, bits, window_count).add(slot_entry(slots[i], i, bits, window_count));
        let rhs = entries_of(slots, bits, window_count).add(slot_entry(v, i, bits, window_count));
        assert forall|x: (u32, nat)| lhs.count(x) == rhs.count(x) by {
            assert(entries_of(updated.drop_last(), bits, window_count).add(
                slot_entry(slots[i], i, bits, window_count),
            ).count(x) == entries_of(slots.drop_last(), bits, window_count).add(
                slot_entry(v, i, bits, window_count),
            ).count(x));
        }
    }
}

/// An entry is stored exactly when some slot contributes it.
proof fn lemma_entries_count(slots: Seq<u32>, bits: nat, window_count: nat, e: (u32, nat))
    ensures
        entries_of(slots, bits, window_count).count(e) > 0 <==> exists|i: int|
            0 <= i < slots.len() && #[trigger] slot_entry(slots[i], i, bits, window_count).count(e)
                > 0,
    decreases slots.len(),
{
    reveal(entries_of);
    if slots.len() > 0 {
        let rest = slots.drop_last();
        lemma_entries_count(rest, bits, window_count, e);
        if exists|i: int|
            0 <= i < rest.len() && #[trigger] slot_entry(rest[i], i, bits, window_count).count(e) > 0 {
            let i = choose|i: int|
                0 <= i < rest.len() && #[trigger] slot_entry(rest[i], i, bits, window_count).count(e)
                    > 0;
        }
        if exists|i: int|
            0 <= i < slots.len() && #[trigger] slot_entry(slots[i], i, bits, window_count).count(e)
                > 0 {
            let i = choose|i: int|
                0 <= i < slots.len() && #[trigger] slot_entry(slots[i], i, bits, window_count).count(
                    e,
                ) > 0;
            if i < slots.len() - 1 {
                assert(slot_entry(rest[i], i, bits, window_count).count(e) > 0);
            }
        }
    }
}

/// There are no more entries than slots.
proof fn lemma_entries_len(slots: Seq<u32>, bits: nat, window_count: nat)
    ensures
        entries_of(slots, bits, window_count).len() <= slots.len(),
    decreases slots.len(),
{
    reveal(entries_of);
    if slots.len() > 0 {
        lemma_entries_len(slots.drop_last(), bits, window_count);
    }
}

/// Empty slots store no entries.
proof fn lemma_entries_empty(slots: Seq<u32>, bits: nat, window_count: nat)
    requires
        forall|i: int| 0 <= i < slots.len() ==> slots[i] == 0,
    ensures
        entries_of(slots, bits, window_count) =~= Multiset::empty(),
    decreases slots.len(),
{
    reveal(entries_of);
    if slots.len() > 0 {
        lemma_entries_empty(slots.drop_last(), bits, window_count);
    }
}

/// Candidate slot `j` holding the fingerprint encoded for it is a valid slot whose
/// entry is the fingerprint with the first window.
proof fn lemma_coordinate_entry(first: nat, second: nat, f: u32, bits: nat, window_count: nat, j: int)
    requires
        window_count >= 2,
        first < window_count,
        second == add_offset(first, f, window_count),
        1 <= bits <= 30,
        f != 0,
        f < (1u32 << (bits as u32)),
        0 <= j < 4,
    ensures
        ({
            let slot = coordinate_slot(first, second, j) as int;
            let e = encode(f, (j / 2) as nat, (j % 2) as nat, bits);
            &&& e != 0
            &&& fit_width(e, bits + 2) == e
            &&& decode_fingerprint(e, bits) == f
            &&& slot_valid(e, slot, bits, window_count)
            &&& stored_first_window(e, slot, bits, window_count) == first
            &&& slot_entry(e, slot, bits, window_count) == Multiset::singleton((f, first))
        }),
{
    lemma_offsets(first, f, window_count);
    lemma_encode(f, (j / 2) as u32, (j % 2) as u32, bits as u32);
}

/// The fingerprint's entry is stored exactly when one of its candidate slots holds
/// it encoded for that slot.
proof fn lemma_pair_slots(slots: Seq<u32>, bits: nat, window_count: nat, first: nat, f: u32)
    requires
        window_count >= 2,
        first < window_count,
        1 <= bits <= 30,
        f != 0,
        f < (1u32 << (bits as u32)),
        slots.len() == window_count + 1,
        forall|i: int| 0 <= i < slots.len() ==> fit_width(#[trigger] slots[i], bits + 2) == slots[i],
        forall|i: int| 0 <= i < slots.len() ==> slot_valid(#[trigger] slots[i], i, bits, window_count),
    ensures
        entries_of(slots, bits, window_count).contains((f, first)) <==> pair_holds(
            slots,
            first,
            add_offset(first, f, window_count),
            f,
            bits,
        ),
{
    let second = add_offset(first, f, window_count);
    let e = (f, first);
    lemma_entries_count(slots, bits, window_count, e);
    lemma_offsets(first, f, window_count);
    if pair_holds(slots, first, second, f, bits) {
        let j = choose|j: int|
            0 <= j < 4 && #[trigger] coordinate_holds(slots, first, second, f, bits, j);
        lemma_coordinate_entry(first, second, f, bits, window_count, j);
    }
    if entries_of(slots, bits, window_count).contains(e) {
        let i = choose|i: int|
            0 <= i < slots.len() && #[trigger] slot_entry(slots[i], i, bits, window_count).count(e)
                > 0;
        let v = slots[i];
        lemma_decode(v, bits as u32);
        let o = decode_offset(v, bits);
        let c = decode_choice(v, bits);
        let window = (i - o) as nat;
        if c == 0 {
            let j = o as int;
            assert(coordinate_holds(slots, first, second, f, bits, j));
        } else {
            lemma_offsets(window, f, window_count);
            let j = 2 + o as int;
            assert(coordinate_holds(slots, first, second, f, bits, j));
        }
    }
}

/// One relocation: the carried fingerprint takes candidate slot `j`, and the value
/// it displaced is carried on.
proof fn lemma_kick(
    before: Seq<u32>,
    j: int,
    first: nat,
    second: nat,
    f: u32,
    bits: nat,
    window_count: nat,
    target: Multiset<(u32, nat)>,
)
    requires
        window_count >= 2,
        first < window_count,
        second == add_offset(first, f, window_count),
        1 <= bits <= 30,
        f != 0,
        f < (1u32 << (bits as u32)),
        0 <= j < 4,
        before.len() == window_count + 1,
        before[coordinate_slot(first, second, j) as int] != 0,
        entries_of(before, bits, window_count).insert((f, first)) == target,
    ensures
        ({
            let slot = coordinate_slot(first, second, j) as int;
            let d = before[slot];
            entries_of(
                before.update(slot, encode(f, (j / 2) as nat, (j % 2) as nat, bits)),
                bits,
                window_count,
            ).insert((decode_fingerprint(d, bits), stored_first_window(d, slot, bits, window_count)))
                == target
        }),
{
    let slot = coordinate_slot(first, second, j) as int;
    let e = encode(f, (j / 2) as nat, (j % 2) as nat, bits);
    let d = before[slot];
    lemma_offsets(first, f, window_count);
    lemma_coordinate_entry(first, second, f, bits, window_count, j);
    lemma_entries_update(before, slot, e, bits, window_count);
    assert(entries_of(before.update(slot, e), bits, window_count).insert(
        (decode_fingerprint(d, bits), stored_first_window(d, slot, bits, window_count)),
    ) =~= target);
}

/// Filling an empty candidate slot adds the fingerprint's entry.
proof fn lemma_placed(
    before: Seq<u32>,
    after: Seq<u32>,
    first: nat,
    second: nat,
    f: u32,
    bits: nat,
    window_count: nat,
    j: int,
)
    requires
        window_count >= 2,
        first < window_count,
        second == add_offset(first, f, window_count),
        1 <= bits <= 30,
        f != 0,
        f < (1u32 << (bits as u32)),
        0 <= j < 4,
        before.len() == window_count + 1,
        before[coordinate_slot(first, second, j) as int] == 0,
        after == before.update(
            coordinate_slot(first, second, j) as int,
            encode(f, (j / 2) as nat, (j % 2) as nat, bits),
        ),
    ensures
        entries_of(after, bits, window_count) == entries_of(before, bits, window_count).insert(
            (f, first),
        ),
{
    let slot = coordinate_slot(first, second, j) as int;
    lemma_offsets(first, f, window_count);
    lemma_coordinate_entry(first, second, f, bits, window_count, j);
    lemma_entries_update(before, slot, encode(f, (j / 2) as nat, (j % 2) as nat, bits), bits, window_count);
    assert(entries_of(after, bits, window_count) =~= entries_of(before, bits, window_count).insert(
        (f, first),
    ));
}

/// Emptying a candidate slot that holds the fingerprint removes one copy of its entry.
proof fn lemma_cleared(
    before: Seq<u32>,
    first: nat,
    second: nat,
    f: u32,
    bits: nat,
    window_count: nat,
    j: int,
)
    requires
        window_count >= 2,
        first < window_count,
        second == add_offset(first, f, window_count),
        1 <= bits <= 30,
        f != 0,
        f < (1u32 << (bits as u32)),
        0 <= j < 4,
        before.len() == window_count + 1,
        coordinate_holds(before, first, second, f, bits, j),
    ensures
        ({
            let slot = coordinate_slot(first, second, j) as int;
            let after = before.update(slot, 0);
            &&& entries_of(before, bits, window_count).count((f, first)) >= 1
            &&& entries_of(after, bits, window_count) == entries_of(before, bits, window_count).remove(
                (f, first),
            )
            &&& entries_of(after, bits, window_count).len() + 1 == entries_of(before, bits, window_count).len()
        }),
{
    let slot = coordinate_slot(first, second, j) as int;
    let after = before.update(slot, 0);
    let e = (f, first);
    lemma_coordinate_entry(first, second, f, bits, window_count, j);
    lemma_entries_update(before, slot, 0, bits, window_count);
    assert(entries_of(after, bits, window_count).add(Multiset::singleton(e)) =~= entries_of(before, bits, window_count));
}

/// A key's fingerprint is the low `bits` bits of its fingerprint hash, or one when
/// those are all zero; its first window is its window hash modulo the window count.
/// The two hashes use different seeds, so neither is a function of the other.
pub proof fn law_fingerprint_and_first_window(key: &str, bits: nat, window_count: nat)
    requires
        1 <= bits <= 32,
        window_count > 0,
    ensures
        FINGERPRINT_SEED != WINDOW_SEED,
        fingerprint_of(key, bits) as nat == (if (hash_key(key, FINGERPRINT_SEED) as nat) % pow2(
            bits,
        ) == 0 {
            1
        } else {
            (hash_key(key, FINGERPRINT_SEED) as nat) % pow2(bits)
        }),
        first_window_of(key, window_count) == ((hash_key(key, WINDOW_SEED) as usize) as nat)
            % window_count,
        first_window_of(key, window_count) < window_count,
{
    let h = hash_key(key, FINGERPRINT_SEED);
    crate::packed::lemma_width_mask_is_mod(h, bits);
    vstd::arithmetic::power2::lemma2_to64();
    if bits < 32 {
        vstd::arithmetic::power2::lemma_pow2_strictly_increases(bits, 32);
    }
    vstd::arithmetic::div_mod::lemma_mod_pos_bound(h as int, pow2(bits) as int);
}

} // verus!
