//! Seeded 64-bit FNV-1a hashing of a key's UTF-8 bytes, finished by a
//! SplitMix64-style avalanche step.
use vstd::prelude::*;
use vstd::string::StringSliceAdditionalSpecFns;
use vstd::wrapping::u64_specs;
use vstd::arithmetic::div_mod::{lemma_mod_multiples_vanish, lemma_mul_mod_noop_left, lemma_small_mod};

verus! {

pub const FNV_OFFSET: u64 = 0xcbf29ce484222325;

pub const FNV_PRIME: u64 = 0x100000001b3;

pub const MIX_FIRST: u64 = 0xbf58476d1ce4e5b9;

pub const MIX_SECOND: u64 = 0x94d049bb133111eb;

/// FNV-1a state after absorbing `bytes`, starting from the offset basis xored
/// with `seed`.
pub open spec fn fnv_state(bytes: Seq<u8>, seed: u64) -> u64
    decreases bytes.len(),
{
    if bytes.len() == 0 {
        FNV_OFFSET ^ seed
    } else {
        u64_specs::wrapping_mul(
            fnv_state(bytes.drop_last(), seed) ^ (bytes.last() as u64),
            FNV_PRIME,
        )
    }
}

/// The avalanche step applied to the final FNV state.
#[verifier::opaque]
pub open spec fn mix_spec(value: u64) -> u64 {
    let a = value ^ (value >> 30u64);
    let b = u64_specs::wrapping_mul(a, MIX_FIRST);
    let c = b ^ (b >> 27u64);
    let d = u64_specs::wrapping_mul(c, MIX_SECOND);
    d ^ (d >> 31u64)
}

/// The seeded hash of a byte string.
pub open spec fn hash_bytes(bytes: Seq<u8>, seed: u64) -> u64 {
    mix_spec(fnv_state(bytes, seed) ^ (bytes.len() as u64))
}

/// The seeded hash of a key, taken over its UTF-8 encoding.
#[verifier::opaque]
pub open spec fn hash_key(key: &str, seed: u64) -> u64 {
    hash_bytes(key.spec_bytes(), seed)
}

/// Hashes `key` with `seed`.
pub fn hash(key: &str, seed: u64) -> (h: u64)
    ensures
        h == hash_key(key, seed),
{
    let bytes = key.as_bytes();
    let mut state: u64 = FNV_OFFSET ^ seed;
    let mut i: usize = 0;
    while i < bytes.len()
        invariant
            bytes@ == key.spec_bytes(),
            0 <= i <= bytes@.len(),
            state == fnv_state(bytes@.subrange(0, i as int), seed),
        decreases bytes@.len() - i,
    {
        proof {
            let prefix = bytes@.subrange(0, i + 1);
            assert(prefix.drop_last() =~= bytes@.subrange(0, i as int));
        }
        state = (state ^ (bytes[i] as u64)).wrapping_mul(FNV_PRIME);
        i = i + 1;
    }
    proof {
        assert(bytes@.subrange(0, i as int) =~= bytes@);
        reveal(hash_key);
    }
    mix(state ^ (key.len() as u64))
}

/// The avalanche step: spreads every input bit over the whole word.
pub fn mix(value: u64) -> (m: u64)
    ensures
        m == mix_spec(value),
{
    reveal(mix_spec);
    let mut value = value;
    value = value ^ (value >> 30);
    value = value.wrapping_mul(MIX_FIRST);
    value = value ^ (value >> 27);
    value = value.wrapping_mul(MIX_SECOND);
    value ^ (value >> 31)
}

/// The inverse of `MIX_FIRST` modulo `2^64`.
pub const MIX_FIRST_INVERSE: u64 = 0x96de1b173f119089;

/// The inverse of `MIX_SECOND` modulo `2^64`.
pub const MIX_SECOND_INVERSE: u64 = 0x319642b2d24d8ec3;

/// The inverse of the avalanche step.
pub open spec fn unmix_spec(value: u64) -> u64 {
    let d = value ^ (value >> 31u64) ^ (value >> 62u64);
    let c = u64_specs::wrapping_mul(d, MIX_SECOND_INVERSE);
    let b = c ^ (c >> 27u64) ^ (c >> 54u64);
    let a = u64_specs::wrapping_mul(b, MIX_FIRST_INVERSE);
    a ^ (a >> 30u64) ^ (a >> 60u64)
}

/// Xoring a word with itself shifted right is undone by xoring in the shifts of
/// the result.
proof fn lemma_unshift(x: u64)
    by (bit_vector)
    ensures
        ((x ^ (x >> 30u64)) ^ ((x ^ (x >> 30u64)) >> 30u64) ^ ((x ^ (x >> 30u64)) >> 60u64)) == x,
        ((x ^ (x >> 27u64)) ^ ((x ^ (x >> 27u64)) >> 27u64) ^ ((x ^ (x >> 27u64)) >> 54u64)) == x,
        ((x ^ (x >> 31u64)) ^ ((x ^ (x >> 31u64)) >> 31u64) ^ ((x ^ (x >> 31u64)) >> 62u64)) == x,
        (0u64 ^ (0u64 >> 30u64)) == 0u64,
        (0u64 ^ (0u64 >> 27u64)) == 0u64,
        (0u64 ^ (0u64 >> 31u64)) == 0u64,
{
}

/// A wrapping multiplication by `c` is undone by one by its inverse `inverse`.
proof fn lemma_mul_inverse(x: u64, c: u64, inverse: u64, t: nat)
    requires
        c as nat * inverse as nat == 1 + t * 0x1_0000_0000_0000_0000,
    ensures
        u64_specs::wrapping_mul(u64_specs::wrapping_mul(x, c), inverse) == x,
{
    let m: int = 0x1_0000_0000_0000_0000;
    let xc = x as int * c as int;
    lemma_mul_mod_noop_left(xc, inverse as int, m);
    assert(xc * inverse == x * (1 + t * m)) by (nonlinear_arith)
        requires
            xc == x as int * c as int,
            c as int * inverse as int == 1 + t * m,
    ;
    assert(x * (1 + t * m) == m * (x * t) + x) by (nonlinear_arith);
    lemma_mod_multiples_vanish(x * t, x as int, m);
    lemma_small_mod(x as nat, m as nat);
}

/// The avalanche step maps zero to zero and distinct words to distinct words:
/// each of its steps is invertible.
pub proof fn law_mix_injective(a: u64, b: u64)
    ensures
        mix_spec(0) == 0,
        mix_spec(a) == mix_spec(b) ==> a == b,
{
    reveal(mix_spec);
    lemma_unmix(a);
    lemma_unmix(b);
    lemma_unshift(0);
    assert(u64_specs::wrapping_mul(0, MIX_FIRST) == 0);
    assert(u64_specs::wrapping_mul(0, MIX_SECOND) == 0);
}

/// `unmix_spec` undoes the avalanche step.
proof fn lemma_unmix(v: u64)
    ensures
        unmix_spec(mix_spec(v)) == v,
{
    reveal(mix_spec);
    let a = v ^ (v >> 30u64);
    let b = u64_specs::wrapping_mul(a, MIX_FIRST);
    let c = b ^ (b >> 27u64);
    let d = u64_specs::wrapping_mul(c, MIX_SECOND);
    lemma_unshift(v);
    lemma_unshift(b);
    lemma_unshift(d);
    lemma_mul_inverse(c, MIX_SECOND, MIX_SECOND_INVERSE, 2077064247507883091);
    lemma_mul_inverse(a, MIX_FIRST, MIX_FIRST_INVERSE, 8125545580553827436);
}

/// The inverse of `FNV_PRIME` modulo `2^64`.
pub const FNV_PRIME_INVERSE: u64 = 0xce965057aff6957b;

/// Xoring in a byte separates distinct states and distinct bytes.
proof fn lemma_xor_byte(s1: u64, s2: u64, b1: u8, b2: u8)
    by (bit_vector)
    ensures
        s1 != s2 ==> s1 ^ (b1 as u64) != s2 ^ (b1 as u64),
        b1 != b2 ==> s1 ^ (b1 as u64) != s1 ^ (b2 as u64),
{
}

/// Xoring in the same word keeps distinct words distinct.
proof fn lemma_xor_word(a: u64, b: u64, n: u64)
    by (bit_vector)
    ensures
        a != b ==> a ^ n != b ^ n,
{
}

/// A wrapping multiplication by the FNV prime maps distinct words to distinct words.
proof fn lemma_fnv_prime_injective(x: u64, y: u64)
    ensures
        x != y ==> u64_specs::wrapping_mul(x, FNV_PRIME) != u64_specs::wrapping_mul(y, FNV_PRIME),
{
    lemma_mul_inverse(x, FNV_PRIME, FNV_PRIME_INVERSE, 887285111055);
    lemma_mul_inverse(y, FNV_PRIME, FNV_PRIME_INVERSE, 887285111055);
}

/// Two byte strings of one length that differ in exactly the byte at `i` leave
/// the FNV state in different values.
proof fn lemma_fnv_separates(x: Seq<u8>, y: Seq<u8>, seed: u64, i: int)
    requires
        x.len() == y.len(),
        0 <= i < x.len(),
        x[i] != y[i],
        forall|j: int| 0 <= j < x.len() && j != i ==> x[j] == y[j],
    ensures
        fnv_state(x, seed) != fnv_state(y, seed),
    decreases x.len(),
{
    let last = x.len() - 1;
    if i == last {
        assert(x.drop_last() =~= y.drop_last());
        let s = fnv_state(x.drop_last(), seed);
        lemma_xor_byte(s, s, x.last(), y.last());
        lemma_fnv_prime_injective(s ^ (x.last() as u64), s ^ (y.last() as u64));
    } else {
        lemma_fnv_separates(x.drop_last(), y.drop_last(), seed, i);
        let s1 = fnv_state(x.drop_last(), seed);
        let s2 = fnv_state(y.drop_last(), seed);
        assert(x.last() == y.last());
        lemma_xor_byte(s1, s2, x.last(), x.last());
        lemma_fnv_prime_injective(s1 ^ (x.last() as u64), s2 ^ (x.last() as u64));
    }
}

/// Every byte counts: two byte strings of one length that differ in a single
/// byte, at any position, hash differently under every seed.
pub proof fn law_hash_separates_single_byte_changes(x: Seq<u8>, y: Seq<u8>, seed: u64, i: int)
    requires
        x.len() == y.len(),
        0 <= i < x.len(),
        x[i] != y[i],
        forall|j: int| 0 <= j < x.len() && j != i ==> x[j] == y[j],
    ensures
        hash_bytes(x, seed) != hash_bytes(y, seed),
{
    lemma_fnv_separates(x, y, seed, i);
    lemma_xor_word(fnv_state(x, seed), fnv_state(y, seed), x.len() as u64);
    law_mix_injective(
        fnv_state(x, seed) ^ (x.len() as u64),
        fnv_state(y, seed) ^ (y.len() as u64),
    );
}

/// Every byte of a key counts: two keys whose UTF-8 encodings have one length
/// and differ in a single byte, at any position, hash differently under every seed.
pub proof fn law_key_hash_separates_single_byte_changes(a: &str, b: &str, seed: u64, i: int)
    requires
        a.spec_bytes().len() == b.spec_bytes().len(),
        0 <= i < a.spec_bytes().len(),
        a.spec_bytes()[i] != b.spec_bytes()[i],
        forall|j: int|
            0 <= j < a.spec_bytes().len() && j != i ==> a.spec_bytes()[j] == b.spec_bytes()[j],
    ensures
        hash_key(a, seed) != hash_key(b, seed),
{
    reveal(hash_key);
    law_hash_separates_single_byte_changes(a.spec_bytes(), b.spec_bytes(), seed, i);
}

/// The FNV-1a step: xor in a byte, then multiply by the prime modulo `2^64`.
pub open spec fn fnv_step(state: u64, byte: u8) -> u64 {
    ((((state ^ (byte as u64)) as nat) * (FNV_PRIME as nat)) % 0x1_0000_0000_0000_0000) as u64
}

/// The FNV state is the left fold of the FNV step over the bytes.
proof fn lemma_fnv_state_is_fold(bytes: Seq<u8>, seed: u64)
    ensures
        fnv_state(bytes, seed) == bytes.fold_left(FNV_OFFSET ^ seed, |s: u64, b: u8| fnv_step(s, b)),
    decreases bytes.len(),
{
    if bytes.len() > 0 {
        lemma_fnv_state_is_fold(bytes.drop_last(), seed);
    }
}

/// A key's hash folds every byte of its UTF-8 encoding, first to last, into the
/// seeded FNV-1a state, xors in the byte count and applies the avalanche step.
pub proof fn law_hash_folds_every_byte(key: &str, seed: u64)
    ensures
        hash_key(key, seed) == mix_spec(
            key.spec_bytes().fold_left(FNV_OFFSET ^ seed, |s: u64, b: u8| fnv_step(s, b))
                ^ (key.spec_bytes().len() as u64),
        ),
{
    reveal(hash_key);
    lemma_fnv_state_is_fold(key.spec_bytes(), seed);
}

} // verus!
