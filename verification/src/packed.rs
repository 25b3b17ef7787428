//! Fixed-width unsigned slots packed back to back into 64-bit words.
//!
//! Slot `i` of width `w` occupies bits `i * w .. i * w + w` of the
//! little-endian bit string formed by the words; a slot may straddle two words.
use vstd::prelude::*;
use vstd::arithmetic::power2::pow2;
use vstd::bits::{
    low_bits_mask,
    lemma_u64_low_bits_mask_is_mod,
    lemma_u64_pow2_no_overflow,
    lemma_u64_shl_is_mul,
};

verus! {

/// Word `k` of `words`, or zero past either end.
pub open spec fn word_at(words: Seq<u64>, k: int) -> u64 {
    if 0 <= k < words.len() {
        words[k]
    } else {
        0
    }
}

/// The 128 bits formed by word `k` (low half) and word `k + 1` (high half).
pub open spec fn window_at(words: Seq<u64>, k: int) -> u128 {
    (word_at(words, k) as u128) | ((word_at(words, k + 1) as u128) << 64u128)
}

/// The mask of the low `width` bits.
pub open spec fn width_mask(width: nat) -> u64 {
    ((1u64 << (width as u64)) - 1) as u64
}

/// The value of slot `index`: the `width` bits that start at bit `index * width`.
pub open spec fn slot_value(words: Seq<u64>, width: nat, index: int) -> u32 {
    let bit = index * width;
    ((window_at(words, bit / 64) >> ((bit % 64) as u128)) & (width_mask(width) as u128)) as u32
}

/// The low `width` bits of `value`: what a slot of that width keeps of it.
pub open spec fn fit_width(value: u32, width: nat) -> u32 {
    ((value as u64) & width_mask(width)) as u32
}

/// Number of 64-bit words that hold `len` slots of `width` bits.
pub open spec fn words_for(len: nat, width: nat) -> nat {
    ((len * width + 63) / 64) as nat
}

/// A sequence of `len` slots, each `width` bits wide.
#[derive(Clone, Debug)]
pub struct PackedSlots {
    words: Vec<u64>,
    len: usize,
    width: u8,
    mask: u64,
}

impl View for PackedSlots {
    type V = Seq<u32>;

    closed spec fn view(&self) -> Seq<u32> {
        Seq::new(self.len as nat, |i: int| slot_value(self.words@, self.width as nat, i))
    }
}

impl PackedSlots {
    /// The storage is consistent with its length and slot width.
    pub closed spec fn wf(&self) -> bool {
        &&& 1 <= self.width <= 32
        &&& self.len * self.width <= usize::MAX
        &&& self.words@.len() == words_for(self.len as nat, self.width as nat)
        &&& self.mask == width_mask(self.width as nat)
    }

    /// Bits per slot.
    pub closed spec fn width(&self) -> nat {
        self.width as nat
    }

    /// Every slot value fits in the slot width.
    pub proof fn lemma_values_fit(&self)
        requires
            self.wf(),
        ensures
            forall|i: int| 0 <= i < self@.len() ==> fit_width(#[trigger] self@[i], self.width()) == self@[i],
    {
        assert forall|i: int| 0 <= i < self@.len() implies fit_width(#[trigger] self@[i], self.width()) == self@[i] by {
            let x = window_at(self.words@, (i * self.width) / 64) >> (((i * self.width) % 64) as u128);
            lemma_mask_idempotent(x, self.width as u64, self.mask);
        }
    }

    /// Creates `len` zeroed slots of `width` bits each.
    pub fn new(len: usize, width: u8) -> (slots: Self)
        requires
            1 <= width <= 32,
            len * width <= usize::MAX,
        ensures
            slots.wf(),
            slots.width() == width,
            slots@ == Seq::new(len as nat, |i: int| 0u32),
    {
        let bit_len = len * (width as usize);
        let word_count = bit_len / 64 + if bit_len % 64 == 0 {
            0
        } else {
            1
        };
        let words: Vec<u64> = vec![0; word_count];
        proof {
            lemma_low_mask_nonzero(width as u64);
        }
        let mask = (1u64 << (width as u64)) - 1;
        let slots = PackedSlots { words, len, width, mask };
        proof {
            assert forall|i: int| 0 <= i < len implies slot_value(slots.words@, width as nat, i) == 0 by {
                let bit = i * width;
                lemma_zero_window((bit % 64) as u128, mask);
            }
        }
        slots
    }

    /// Reads slot `index`.
    pub fn get(&self, index: usize) -> (value: u32)
        requires
            self.wf(),
            index < self@.len(),
        ensures
            value == self@[index as int],
    {
        proof {
            lemma_slot_in_words(self.len as nat, self.width as nat, index as int);
        }
        let width = self.width as usize;
        let bit = index * width;
        let word = bit / 64;
        let shift = (bit % 64) as u64;
        let lo = self.words[word];
        let mut value = lo >> shift;
        if shift + (width as u64) > 64 {
            value = value | (self.words[word + 1] << (64 - shift));
        }
        proof {
            lemma_read_window(lo, word_at(self.words@, word + 1), shift, width as u64, self.mask);
        }
        (value & self.mask) as u32
    }

    /// Stores the low `width` bits of `value` in slot `index`.
    pub fn set(&mut self, index: usize, value: u32)
        requires
            old(self).wf(),
            index < old(self)@.len(),
        ensures
            final(self).wf(),
            final(self).width() == old(self).width(),
            final(self)@ == old(self)@.update(index as int, fit_width(value, old(self).width())),
    {
        proof {
            lemma_slot_in_words(self.len as nat, self.width as nat, index as int);
        }
        let ghost old_words = self.words@;
        let v = (value as u64) & self.mask;
        let width = self.width as usize;
        let bit = index * width;
        let word = bit / 64;
        let shift = (bit % 64) as u64;
        let lo = self.words[word];
        self.words.set(word, (lo & !(self.mask << shift)) | (v << shift));
        let spill = shift + (width as u64);
        if spill > 64 {
            let upper_bits = spill - 64;
            proof {
                lemma_low_mask_nonzero(upper_bits);
            }
            let upper_mask = (1u64 << upper_bits) - 1;
            let hi = self.words[word + 1];
            self.words.set(word + 1, (hi & !upper_mask) | (v >> (64 - shift)));
        }
        proof {
            lemma_mask_twice(value as u64, self.mask);
            let target = old(self)@.update(index as int, fit_width(value, self.width as nat));
            assert forall|j: int| 0 <= j < self.len implies #[trigger] self@[j] == target[j] by {
                lemma_slot_in_words(self.len as nat, self.width as nat, j);
                lemma_slot_after_write(old_words, self.words@, self.width as nat, index as int, j, v);
            }
        }
    }

    /// Stores `value` in slot `index` and returns the value it replaced.
    pub fn swap(&mut self, index: usize, value: u32) -> (previous: u32)
        requires
            old(self).wf(),
            index < old(self)@.len(),
        ensures
            final(self).wf(),
            final(self).width() == old(self).width(),
            previous == old(self)@[index as int],
            final(self)@ == old(self)@.update(index as int, fit_width(value, old(self).width())),
    {
        let previous = self.get(index);
        self.set(index, value);
        previous
    }

    /// Bytes of word storage.
    pub fn bytes(&self) -> (n: usize)
        requires
            self.wf(),
        ensures
            n == words_for(self@.len(), self.width()) * 8,
    {
        proof {
            lemma_words_fit(self.len as nat, self.width as nat);
        }
        self.words.len() * core::mem::size_of::<u64>()
    }
}

/// Write `entry` changed one slot of `before` to give `after`, and records the slot and
/// the value it held.
pub open spec fn undo_step(entry: (usize, u32), before: Seq<u32>, after: Seq<u32>, bits: nat) -> bool {
    &&& entry.0 < before.len()
    &&& after.len() == before.len()
    &&& entry.1 == before[entry.0 as int]
    &&& fit_width(entry.1, bits) == entry.1
    &&& after == before.update(entry.0 as int, after[entry.0 as int])
}

/// `history` holds the slots before and after each write of `path`.
pub open spec fn relocations_undoable(path: Seq<(usize, u32)>, history: Seq<Seq<u32>>, bits: nat) -> bool {
    &&& history.len() == path.len() + 1
    &&& forall|k: int|
        #![trigger path[k]]
        0 <= k < path.len() ==> undo_step(path[k], history[k], history[k + 1], bits)
}

/// Recording one more write keeps the record undoable.
pub proof fn lemma_relocation_push(
    path: Seq<(usize, u32)>,
    history: Seq<Seq<u32>>,
    entry: (usize, u32),
    next: Seq<u32>,
    bits: nat,
)
    requires
        relocations_undoable(path, history, bits),
        undo_step(entry, history.last(), next, bits),
    ensures
        relocations_undoable(path.push(entry), history.push(next), bits),
{
    let p2 = path.push(entry);
    let h2 = history.push(next);
    assert forall|k: int| 0 <= k < p2.len() implies undo_step(#[trigger] p2[k], h2[k], h2[k + 1], bits) by {
        if k < path.len() {
        }
    }
}

/// Undoing write `k` gives back the slots before it.
pub proof fn lemma_relocation_undo(path: Seq<(usize, u32)>, history: Seq<Seq<u32>>, bits: nat, k: int)
    requires
        relocations_undoable(path, history, bits),
        0 <= k < path.len(),
    ensures
        path[k].0 < history[k + 1].len(),
        fit_width(path[k].1, bits) == path[k].1,
        history[k + 1].update(path[k].0 as int, path[k].1) == history[k],
{
}

/// The slot at `index` lies within the words, and so does its spill.
proof fn lemma_slot_in_words(len: nat, width: nat, index: int)
    requires
        1 <= width <= 32,
        0 <= index < len,
    ensures
        (index + 1) * width <= 64 * words_for(len, width),
        index * width >= 0,
        index * width + width == (index + 1) * width,
        (index * width) / 64 < words_for(len, width),
        (index * width) % 64 + width > 64 ==> (index * width) / 64 + 1 < words_for(len, width),
{
    assert((index + 1) * width <= len * width) by (nonlinear_arith)
        requires
            index + 1 <= len,
            width >= 1,
    ;
    assert(index * width >= 0) by (nonlinear_arith)
        requires
            index >= 0,
            width >= 1,
    ;
    assert(index * width + width == (index + 1) * width) by (nonlinear_arith);
}

/// The word count times eight fits in a machine word.
proof fn lemma_words_fit(len: nat, width: nat)
    requires
        1 <= width <= 32,
        len * width <= usize::MAX,
    ensures
        words_for(len, width) * 8 <= usize::MAX,
{
}

/// Writing slot `i` sets it to `v` and leaves every other slot as it was.
proof fn lemma_slot_after_write(
    before: Seq<u64>,
    after: Seq<u64>,
    width: nat,
    i: int,
    j: int,
    v: u64,
)
    requires
        1 <= width <= 32,
        0 <= i,
        0 <= j,
        (i + 1) * width <= 64 * before.len(),
        (j + 1) * width <= 64 * before.len(),
        after.len() == before.len(),
        v & width_mask(width) == v,
        ({
            let p = i * width;
            let a = p / 64;
            let s = (p % 64) as u64;
            let m = width_mask(width);
            &&& after[a] == (before[a] & !(m << s)) | (v << s)
            &&& (s + width > 64 ==> after[a + 1] == (before[a + 1] & !(((1u64 << ((s + width
                - 64) as u64)) - 1) as u64)) | (v >> ((64 - s) as u64)))
            &&& forall|k: int|
                0 <= k < before.len() && k != a && !(s + width > 64 && k == a + 1) ==> after[k]
                    == before[k]
        }),
    ensures
        slot_value(after, width, j) == if j == i {
            v as u32
        } else {
            slot_value(before, width, j)
        },
{
    let m = width_mask(width);
    let w = width as u64;
    let p = i * width;
    let q = j * width;
    assert(p >= 0 && q >= 0) by (nonlinear_arith)
        requires
            i >= 0,
            j >= 0,
            width >= 1,
            p == i * width,
            q == j * width,
    ;
    assert(j < i ==> q + width <= p) by (nonlinear_arith)
        requires
            p == i * width,
            q == j * width,
            width >= 1,
    ;
    assert(i < j ==> p + width <= q) by (nonlinear_arith)
        requires
            p == i * width,
            q == j * width,
            width >= 1,
    ;
    assert(p + width <= 64 * before.len()) by (nonlinear_arith)
        requires
            p == i * width,
            (i + 1) * width <= 64 * before.len(),
    ;
    assert(q + width <= 64 * before.len()) by (nonlinear_arith)
        requires
            q == j * width,
            (j + 1) * width <= 64 * before.len(),
    ;
    let a = p / 64;
    let s = (p % 64) as u64;
    let b = q / 64;
    let t = (q % 64) as u64;
    let spill = s + width > 64;
    let lo = before[a];
    let hi = word_at(before, a + 1);
    let lo2 = after[a];
    let hi2 = word_at(after, a + 1);
    if b == a {
        lemma_write_window(lo, hi, lo2, hi2, v, s, w, m);
        assert(window_at(after, a) == (window_at(before, a) & !((m as u128) << (s as u128))) | ((
        v as u128) << (s as u128)));
        lemma_window_update(window_at(before, a), window_at(after, a), v, s, t, w, m);
    } else if b + 1 == a {
        lemma_window_below(before[b], lo, lo2, v, s, t, w, m);
    } else if b == a + 1 && spill {
        lemma_window_above(before[a + 1], after[a + 1], word_at(before, a + 2), v, s, t, w, m);
    } else {
    }
}

/// A zero window reads as zero at every offset.
proof fn lemma_zero_window(s: u128, m: u64)
    by (bit_vector)
    ensures
        (((0u64 as u128) | ((0u64 as u128) << 64u128)) >> s) & (m as u128) == 0u128,
{
}

/// Masking twice is masking once; masked values survive the narrowing to 32 bits.
proof fn lemma_mask_idempotent(x: u128, w: u64, m: u64)
    by (bit_vector)
    requires
        1 <= w <= 32,
        m == ((1u64 << w) - 1) as u64,
    ensures
        ((((x & (m as u128)) as u32) as u64) & m) as u32 == (x & (m as u128)) as u32,
{
}

/// A value masked once is unchanged by masking again.
proof fn lemma_mask_twice(v: u64, m: u64)
    by (bit_vector)
    ensures
        (v & m) & m == v & m,
{
}

/// A shifted one below the word size is at least one.
pub proof fn lemma_low_mask_nonzero(w: u64)
    by (bit_vector)
    requires
        w < 64,
    ensures
        (1u64 << w) >= 1,
{
}

/// Read of a slot that lies within one word, or straddles into the next.
proof fn lemma_read_window(lo: u64, hi: u64, s: u64, w: u64, m: u64)
    by (bit_vector)
    requires
        s < 64,
        1 <= w <= 32,
        m == ((1u64 << w) - 1) as u64,
    ensures
        s + w <= 64 ==> (((lo >> s) & m) as u128) == ((((lo as u128) | ((hi as u128)
            << 64u128)) >> (s as u128)) & (m as u128)),
        s + w > 64 ==> ((((lo >> s) | (hi << ((64 - s) as u64))) & m) as u128) == ((((
        lo as u128) | ((hi as u128) << 64u128)) >> (s as u128)) & (m as u128)),
        (((lo >> s) & m) as u128) as u32 == ((lo >> s) & m) as u32,
{
}

/// Writing a slot's two words is a masked write into their 128-bit window.
proof fn lemma_write_window(lo: u64, hi: u64, lo2: u64, hi2: u64, v: u64, s: u64, w: u64, m: u64)
    by (bit_vector)
    requires
        s < 64,
        1 <= w <= 32,
        m == ((1u64 << w) - 1) as u64,
        v & m == v,
        lo2 == (lo & !(m << s)) | (v << s),
        s + w > 64 ==> hi2 == (hi & !(((1u64 << ((s + w - 64) as u64)) - 1) as u64)) | (v >> ((
        64 - s) as u64)),
        s + w <= 64 ==> hi2 == hi,
    ensures
        ((lo2 as u128) | ((hi2 as u128) << 64u128)) == (((lo as u128) | ((hi as u128)
            << 64u128)) & !((m as u128) << (s as u128))) | ((v as u128) << (s as u128)),
{
}

/// A masked write into a window changes exactly the written bit range.
proof fn lemma_window_update(x: u128, x2: u128, v: u64, s: u64, t: u64, w: u64, m: u64)
    by (bit_vector)
    requires
        s < 64,
        t < 64,
        1 <= w <= 32,
        m == ((1u64 << w) - 1) as u64,
        v & m == v,
        x2 == (x & !((m as u128) << (s as u128))) | ((v as u128) << (s as u128)),
    ensures
        (((x2 >> (s as u128)) & (m as u128)) as u32) == v as u32,
        (t + w <= s || s + w <= t) ==> ((x2 >> (t as u128)) & (m as u128)) == ((x >> (
        t as u128)) & (m as u128)),
{
}

/// A slot that ends in word `a` before bit `s` is unaffected by a write at `s`.
proof fn lemma_window_below(p: u64, lo: u64, lo2: u64, v: u64, s: u64, t: u64, w: u64, m: u64)
    by (bit_vector)
    requires
        s < 64,
        t < 64,
        1 <= w <= 32,
        t + w <= 64 + s,
        m == ((1u64 << w) - 1) as u64,
        v & m == v,
        lo2 == (lo & !(m << s)) | (v << s),
    ensures
        ((((p as u128) | ((lo2 as u128) << 64u128)) >> (t as u128)) & (m as u128)) == ((((
        p as u128) | ((lo as u128) << 64u128)) >> (t as u128)) & (m as u128)),
{
}

/// A slot that starts in the spill word after the written bits is unaffected.
proof fn lemma_window_above(hi: u64, hi2: u64, nxt: u64, v: u64, s: u64, t: u64, w: u64, m: u64)
    by (bit_vector)
    requires
        s < 64,
        t < 64,
        1 <= w <= 32,
        s + w > 64,
        t + 64 >= s + w,
        m == ((1u64 << w) - 1) as u64,
        v & m == v,
        hi2 == (hi & !(((1u64 << ((s + w - 64) as u64)) - 1) as u64)) | (v >> ((64 - s) as u64)),
    ensures
        ((((hi2 as u128) | ((nxt as u128) << 64u128)) >> (t as u128)) & (m as u128)) == ((((
        hi as u128) | ((nxt as u128) << 64u128)) >> (t as u128)) & (m as u128)),
{
}

/// Masking with `width_mask(width)` keeps a value modulo `2^width`.
pub proof fn lemma_width_mask_is_mod(value: u64, width: nat)
    requires
        width < 64,
    ensures
        (value & width_mask(width)) as nat == (value as nat) % pow2(width),
{
    lemma_u64_pow2_no_overflow(width);
    lemma_u64_shl_is_mul(1, width as u64);
    assert(width_mask(width) == low_bits_mask(width) as u64);
    lemma_u64_low_bits_mask_is_mod(value, width);
}

} // verus!
