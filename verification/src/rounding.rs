//! Round-to-nearest binary64 arithmetic on integers and integer ratios.
//!
//! A binary64 value has 53 significant bits. The sizing rules of the filters
//! divide a capacity by a load factor or by `ln 2` in that format and round the
//! quotient up; the functions here give that result exactly, in integers.
use vstd::prelude::*;
use vstd::arithmetic::power2::{
    pow2,
    lemma2_to64,
    lemma2_to64_rest,
    lemma_pow2_adds,
    lemma_pow2_strictly_increases,
    lemma_pow2_unfold,
};
use vstd::arithmetic::div_mod::{lemma_fundamental_div_mod, lemma_mod_pos_bound};

verus! {

/// `floor(log2(n))`, and zero for `n < 2`.
pub open spec fn log2_floor(n: nat) -> nat
    decreases n,
{
    if n < 2 {
        0
    } else {
        1 + log2_floor(n / 2)
    }
}

/// `num / den` rounded to the nearest integer, ties to the even one.
pub open spec fn round_half_even(num: nat, den: nat) -> nat {
    let q = num / den;
    let r = num % den;
    if 2 * r > den || (2 * r == den && q % 2 == 1) {
        q + 1
    } else {
        q
    }
}

/// The binary64 value nearest to `n`, ties to an even significand.
pub open spec fn nearest_double(n: nat) -> nat {
    let e = log2_floor(n);
    if e <= 52 {
        n
    } else {
        let unit = pow2((e - 52) as nat);
        round_half_even(n, unit) * unit
    }
}

/// The binary64 value nearest to `num / den` (ties to an even significand),
/// rounded up to an integer; for a quotient of zero or of at least one.
pub open spec fn ceil_of_nearest_double(num: nat, den: nat) -> nat {
    let e = log2_floor(num / den);
    if e <= 52 {
        let scale = pow2((52 - e) as nat);
        ((round_half_even(num * scale, den) + scale - 1) / (scale as int)) as nat
    } else {
        let unit = pow2((e - 52) as nat);
        round_half_even(num, den * unit) * unit
    }
}

/// `2^log2_floor(n) <= n < 2^(log2_floor(n) + 1)`, the first for positive `n`.
pub proof fn lemma_log2_floor_bounds(n: nat)
    ensures
        n >= 1 ==> pow2(log2_floor(n)) <= n,
        n < pow2(log2_floor(n) + 1),
    decreases n,
{
    lemma_pow2_unfold(log2_floor(n) + 1);
    if n >= 2 {
        lemma_log2_floor_bounds(n / 2);
        lemma_pow2_unfold(log2_floor(n));
    } else {
        lemma2_to64();
    }
}

/// An exponent whose power lies below `2^k` is below `k`.
proof fn lemma_exponent_below(e: nat, k: nat, n: nat)
    requires
        pow2(e) <= n,
        n < pow2(k),
    ensures
        e < k,
{
    if e >= k {
        if e > k {
            lemma_pow2_strictly_increases(k, e);
        }
    }
}

/// Division facts: the quotient times the divisor lies within one divisor of the
/// dividend, and a dividend below `den * k` has a quotient below `k`.
proof fn lemma_quotient(num: nat, den: nat, k: nat)
    requires
        den > 0,
    ensures
        (num / den) * den <= num,
        num < (num / den) * den + den,
        num < den * k ==> num / den < k,
{
    lemma_fundamental_div_mod(num as int, den as int);
    lemma_mod_pos_bound(num as int, den as int);
    let q = num / den;
    let r = num % den;
    assert(q * den <= num && num < q * den + den) by (nonlinear_arith)
        requires
            num == den * q + r,
            0 <= r < den,
    ;
    if num < den * k {
        assert(q < k) by (nonlinear_arith)
            requires
                q * den <= num,
                num < den * k,
                den > 0,
        ;
    }
}

/// The rounded quotient exceeds the true one by at most one, so it stays within
/// one divisor of the dividend, and it stays below `k` when the quotient is below `k`.
proof fn lemma_round_half_even_bounds(num: nat, den: nat, k: nat)
    requires
        den > 0,
    ensures
        round_half_even(num, den) * den <= num + den,
        round_half_even(num, den) <= num / den + 1,
        num < den * k ==> round_half_even(num, den) <= k,
{
    lemma_quotient(num, den, k);
    let q = num / den;
    let r = round_half_even(num, den);
    assert(r * den <= num + den) by (nonlinear_arith)
        requires
            r <= q + 1,
            q * den <= num,
    ;
}

/// `2^k` for `k <= 126`.
pub fn pow2_u128(k: u32) -> (p: u128)
    requires
        k <= 126,
    ensures
        p == pow2(k as nat),
{
    proof {
        lemma2_to64();
        lemma2_to64_rest();
        lemma_pow2_adds(64, 62);
    }
    let mut p: u128 = 1;
    let mut i: u32 = 0;
    while i < k
        invariant
            i <= k <= 126,
            p == pow2(i as nat),
            pow2(126) == 0x4000_0000_0000_0000_0000_0000_0000_0000,
        decreases k - i,
    {
        proof {
            lemma_pow2_unfold((i + 1) as nat);
            lemma_pow2_strictly_increases(i as nat, 126);
        }
        p = p * 2;
        i = i + 1;
    }
    p
}

/// `floor(log2(n))`.
pub fn log2_floor_u128(n: u128) -> (e: u32)
    ensures
        e == log2_floor(n as nat),
{
    let mut v = n;
    let mut e: u32 = 0;
    proof {
        lemma_log2_floor_bounds(n as nat);
        lemma2_to64();
        lemma_pow2_adds(64, 64);
        if n >= 1 {
            lemma_exponent_below(log2_floor(n as nat), 128, n as nat);
        }
    }
    while v >= 2
        invariant
            log2_floor(n as nat) == e + log2_floor(v as nat),
            log2_floor(n as nat) < 128,
        decreases v,
    {
        v = v / 2;
        e = e + 1;
    }
    e
}

/// `num / den` rounded to the nearest integer, ties to the even one.
pub fn round_half_even_u128(num: u128, den: u128) -> (r: u128)
    requires
        den > 0,
        num < u128::MAX,
    ensures
        r == round_half_even(num as nat, den as nat),
{
    let q = num / den;
    let rem = num % den;
    proof {
        lemma_quotient(num as nat, den as nat, 0);
        assert(q <= num) by (nonlinear_arith)
            requires
                q * den <= num,
                den >= 1,
        ;
    }
    if rem > den - rem || (rem == den - rem && q % 2 == 1) {
        q + 1
    } else {
        q
    }
}

/// The binary64 value nearest to `n`, ties to an even significand.
pub fn nearest_double_u128(n: u128) -> (x: u128)
    requires
        n < 0x1_0000_0000_0000_0000_0000_0000,
    ensures
        x == nearest_double(n as nat),
        x <= 2 * n,
{
    let e = log2_floor_u128(n);
    if e <= 52 {
        return n;
    }
    proof {
        lemma_log2_floor_bounds(n as nat);
        lemma2_to64();
        lemma2_to64_rest();
        lemma_pow2_adds(64, 32);
        lemma_exponent_below(e as nat, 96, n as nat);
        lemma_pow2_adds((e - 52) as nat, 52);
    }
    let unit = pow2_u128(e - 52);
    proof {
        assert(unit <= pow2(e as nat)) by (nonlinear_arith)
            requires
                pow2(e as nat) == unit * pow2(52),
                pow2(52) >= 1,
        ;
        lemma_round_half_even_bounds(n as nat, unit as nat, 0);
    }
    let r = round_half_even_u128(n, unit);
    r * unit
}

/// The binary64 value nearest to `num / den`, rounded up to an integer.
pub fn ceil_of_nearest_double_u128(num: u128, den: u128) -> (r: u128)
    requires
        0 < den < 0x400_0000_0000_0000_0000,
        num < 0x8000_0000_0000_0000_0000_0000_0000_0000,
    ensures
        r == ceil_of_nearest_double(num as nat, den as nat),
        r <= 2 * (num / den) + 2,
{
    let q = num / den;
    let e = log2_floor_u128(q);
    let ghost top = pow2((e + 1) as nat);
    proof {
        lemma_log2_floor_bounds(q as nat);
        lemma_quotient(num as nat, den as nat, 0);
        lemma2_to64();
        lemma2_to64_rest();
        lemma_pow2_adds(64, 63);
        assert(q <= num) by (nonlinear_arith)
            requires
                q * den <= num,
                den >= 1,
        ;
        if q >= 1 {
            lemma_exponent_below(e as nat, 127, q as nat);
        }
        assert(num < den * top) by (nonlinear_arith)
            requires
                num < q * den + den,
                q + 1 <= top,
                den > 0,
        ;
        lemma_pow2_unfold((e + 1) as nat);
        assert(top <= 2 * q + 2);
    }
    if e <= 52 {
        let scale = pow2_u128(52 - e);
        proof {
            lemma_pow2_adds((e + 1) as nat, (52 - e) as nat);
            assert(num * scale < den * pow2(53)) by (nonlinear_arith)
                requires
                    num < den * top,
                    scale > 0,
                    pow2(53) == top * scale,
            ;
            assert(den * pow2(53) < 0x8000_0000_0000_0000_0000_0000_0000_0000) by (nonlinear_arith)
                requires
                    den < 0x400_0000_0000_0000_0000,
                    pow2(53) == 0x20_0000_0000_0000,
            ;
            lemma_round_half_even_bounds((num * scale) as nat, den as nat, pow2(53));
        }
        let m = round_half_even_u128(num * scale, den);
        proof {
            assert(m + scale - 1 < scale * (top + 1)) by (nonlinear_arith)
                requires
                    m <= top * scale,
                    scale > 0,
            ;
            lemma_quotient((m + scale - 1) as nat, scale as nat, top + 1);
        }
        (m + scale - 1) / scale
    } else {
        let unit = pow2_u128(e - 52);
        proof {
            lemma_pow2_adds((e - 52) as nat, 52);
            lemma_pow2_adds((e - 52) as nat, 53);
            assert(den * unit <= num) by (nonlinear_arith)
                requires
                    pow2(e as nat) <= q,
                    q * den <= num,
                    pow2(e as nat) == unit * pow2(52),
                    pow2(52) >= 1,
            ;
            assert(num < (den * unit) * pow2(53)) by (nonlinear_arith)
                requires
                    num < den * top,
                    top == unit * pow2(53),
            ;
            lemma_round_half_even_bounds(num as nat, (den * unit) as nat, pow2(53));
        }
        let m = round_half_even_u128(num, den * unit);
        proof {
            assert(m * unit <= top) by (nonlinear_arith)
                requires
                    m <= pow2(53),
                    top == unit * pow2(53),
            ;
        }
        m * unit
    }
}

} // verus!
