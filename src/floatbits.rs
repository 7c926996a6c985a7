use vstd::prelude::*;
use crate::element::{f32_exp, f32_frac, f64_exp, f64_frac};
use vstd::arithmetic::power2::{pow2, lemma2_to64, lemma2_to64_rest, lemma_pow2_pos, lemma_pow2_strictly_increases, lemma_pow2_unfold, lemma_pow2_adds};

verus! {

/// The number of binary digits of `a` (zero for zero).
pub open spec fn bit_len(a: nat) -> nat
    decreases a,
{
    if a == 0 { 0 } else { 1 + bit_len(a / 2) }
}

/// `m / 2^s` rounded to the nearest integer, ties to even.
pub open spec fn rne(m: nat, s: nat) -> nat {
    if s == 0 {
        m
    } else {
        let d = pow2(s);
        let q = m / d;
        let r = m % d;
        let h = d / 2;
        if r > h || (r == h && q % 2 == 1) { q + 1 } else { q }
    }
}

/// The bits of the float nearest to the integer `v` (ties to even), in a
/// binary format with `p` significand bits (hidden bit included), exponent
/// bias `bias` and `w` bits in all: what Rust's `as` cast from `i64` gives.
pub open spec fn int_float_bits(v: int, p: nat, bias: nat, w: nat) -> nat {
    let a: nat = (if v < 0 { -v } else { v }) as nat;
    if a == 0 {
        0
    } else {
        let n = bit_len(a);
        let q: nat = if n <= p { a * pow2((p - n) as nat) } else { rne(a, (n - p) as nat) };
        ((if v < 0 { pow2((w - 1) as nat) } else { 0 }) + (bias + n - 1) * pow2((p - 1) as nat) + q
            - pow2((p - 1) as nat)) as nat
    }
}

pub proof fn lemma_bit_len_bounds(a: nat)
    requires
        a > 0,
    ensures
        bit_len(a) >= 1,
        pow2((bit_len(a) - 1) as nat) <= a < pow2(bit_len(a)),
    decreases a,
{
    if a / 2 == 0 {
        assert(bit_len(a / 2) == 0);
        assert(pow2(0) == 1 && pow2(1) == 2) by { lemma2_to64(); }
    } else {
        lemma_bit_len_bounds(a / 2);
        let k = bit_len(a / 2);
        lemma_pow2_unfold(k);
        lemma_pow2_unfold(k + 1);
    }
}

/// `2^k` for `k < 64`.
pub fn pow2_u64(k: u64) -> (r: u64)
    requires
        k < 64,
    ensures
        r == pow2(k as nat),
{
    proof { lemma2_to64(); lemma2_to64_rest(); }
    let mut r: u64 = 1;
    let mut i: u64 = 0;
    while i < k
        invariant
            i <= k < 64,
            r == pow2(i as nat),
            pow2(63) == 0x8000000000000000,
        decreases k - i,
    {
        proof {
            lemma_pow2_unfold((i + 1) as nat);
            if i + 1 < 63 {
                lemma_pow2_strictly_increases((i + 1) as nat, 63);
            }
        }
        r = r * 2;
        i = i + 1;
    }
    r
}

/// `m / 2^s` rounded to nearest, ties to even.
pub fn round_half_even(m: u64, s: u64) -> (r: u64)
    requires
        s < 64,
    ensures
        r == rne(m as nat, s as nat),
        r <= m,
        m as nat / pow2(s as nat) <= r <= m as nat / pow2(s as nat) + 1,
{
    proof { vstd::arithmetic::power2::lemma2_to64(); }
    if s == 0 {
        return m;
    }
    let d = pow2_u64(s);
    proof {
        lemma_pow2_pos(s as nat);
        lemma_pow2_unfold(s as nat);
        lemma_pow2_pos((s - 1) as nat);
    }
    let q = m / d;
    let r = m % d;
    let h = d / 2;
    assert(q <= m / 2) by (nonlinear_arith)
        requires q == m / d, d >= 2;
    if r > h || (r == h && q % 2 == 1) {
        assert(q + 1 <= m) by (nonlinear_arith)
            requires q == m / d, d >= 2, r == m % d, r > 0 || r == h, h == d / 2, h >= 1;
        q + 1
    } else {
        q
    }
}

/// The number of binary digits of `a`.
pub fn bit_length(a: u64) -> (n: u64)
    ensures
        n == bit_len(a as nat),
        n <= 64,
{
    proof {
        if a > 0 {
            lemma_bit_len_bounds(a as nat);
            lemma2_to64();
            lemma2_to64_rest();
            if bit_len(a as nat) > 64 {
                lemma_pow2_strictly_increases(64, (bit_len(a as nat) - 1) as nat);
            }
        }
    }
    let mut t: u64 = a;
    let mut n: u64 = 0;
    while t > 0
        invariant
            bit_len(a as nat) == n + bit_len(t as nat),
            n + bit_len(t as nat) <= 64,
        decreases t,
    {
        t = t / 2;
        n = n + 1;
    }
    n
}

proof fn lemma_div_between(a: int, d: int, lo: int, hi: int)
    requires
        d > 0,
        lo * d <= a < hi * d,
    ensures
        lo <= a / d < hi,
{
    assert(lo <= a / d) by (nonlinear_arith)
        requires d > 0, lo * d <= a;
    assert(a / d < hi) by (nonlinear_arith)
        requires d > 0, a < hi * d;
}

/// The rounded significand has exactly `p` bits, or is `2^p` after a carry.
proof fn lemma_significand_bounds(a: nat, n: nat, p: nat)
    requires
        1 <= n,
        1 <= p,
        pow2((n - 1) as nat) <= a < pow2(n),
    ensures
        ({
            let q: nat = if n <= p { a * pow2((p - n) as nat) } else { rne(a, (n - p) as nat) };
            pow2((p - 1) as nat) <= q <= pow2(p)
        }),
{
    if n <= p {
        let x = pow2((p - n) as nat);
        lemma_pow2_adds((n - 1) as nat, (p - n) as nat);
        lemma_pow2_adds(n, (p - n) as nat);
        lemma_pow2_pos((p - n) as nat);
        assert(pow2((n - 1) as nat) * x <= a * x) by (nonlinear_arith)
            requires pow2((n - 1) as nat) <= a, x > 0;
        assert(a * x < pow2(n) * x) by (nonlinear_arith)
            requires a < pow2(n), x > 0;
    } else {
        let sh = (n - p) as nat;
        let d = pow2(sh);
        lemma_pow2_adds((p - 1) as nat, sh);
        lemma_pow2_adds(p, sh);
        lemma_pow2_pos(sh);
        lemma_div_between(a as int, d as int, pow2((p - 1) as nat) as int, pow2(p) as int);
    }
}

/// Rust's `v as f64` (`p = 53`) or `v as f32` (`p = 24`), as bits.
pub fn int_to_float_bits(v: i64, p: u64, bias: u64, w: u64) -> (r: u64)
    requires
        (p == 53 && bias == 1023 && w == 64) || (p == 24 && bias == 127 && w == 32),
    ensures
        r as nat == int_float_bits(v as int, p as nat, bias as nat, w as nat),
        r < pow2(w as nat),
{
    proof { lemma2_to64(); lemma2_to64_rest(); }
    let neg = v < 0;
    let a: u64 = if neg { (0i128 - v as i128) as u64 } else { v as u64 };
    if a == 0 {
        return 0;
    }
    let n = bit_length(a);
    proof {
        lemma_bit_len_bounds(a as nat);
        lemma_significand_bounds(a as nat, n as nat, p as nat);
    }
    let q: u64 = if n <= p {
        let x = pow2_u64(p - n);
        assert(a * x <= pow2(p as nat));
        a * x
    } else {
        round_half_even(a, n - p)
    };
    let top = pow2_u64(p - 1);
    let sign: u64 = if neg { pow2_u64(w - 1) } else { 0 };
    assert((bias + n - 1) * top + (q - top) < pow2((w - 1) as nat)) by (nonlinear_arith)
        requires
            (p == 53 && bias == 1023 && w == 64 && top == 0x10000000000000
                && pow2((w - 1) as nat) == 0x8000000000000000)
            || (p == 24 && bias == 127 && w == 32 && top == 0x800000
                && pow2((w - 1) as nat) == 0x80000000),
            n <= 64, n >= 1, top <= q, q <= 2 * top;
    proof {
        lemma_pow2_unfold(w as nat);
    }
    sign + (bias + n - 1) * top + (q - top)
}

/// The `f64` bits of an `f32` that is not NaN, exactly as wide (`as f64`).
pub open spec fn widen_bits(b: u32) -> nat {
    let sbit: nat = if b >> 31u32 == 1 { pow2(63) } else { 0 };
    let exp = f32_exp(b);
    let frac = f32_frac(b) as nat;
    if exp == 0xff {
        sbit + 0x7ff * pow2(52) + frac * pow2(29)
    } else if exp == 0 {
        if frac == 0 {
            sbit
        } else {
            let n = bit_len(frac);
            (sbit + (873 + n) * pow2(52) + frac * pow2((53 - n) as nat) - pow2(52)) as nat
        }
    } else {
        (sbit + (exp + 896) * pow2(52) + frac * pow2(29)) as nat
    }
}

/// The `f32` bits nearest (ties to even) to an `f64` that is not NaN, as
/// `as f32` gives them: too large gives infinity, too small zero.
pub open spec fn narrow_bits(b: u64) -> nat {
    let sbit: nat = if b >> 63u64 == 1 { pow2(31) } else { 0 };
    let exp = f64_exp(b);
    let frac = f64_frac(b) as nat;
    let m: nat = frac + pow2(52);
    let e = exp - 1023;
    if exp == 0x7ff {
        sbit + 0xff * pow2(23)
    } else if exp == 0 {
        sbit
    } else if e > 127 {
        sbit + 0xff * pow2(23)
    } else if e >= -126 {
        (sbit + (e + 127) * pow2(23) + rne(m, 29) - pow2(23)) as nat
    } else if 29 + (-126 - e) >= 64 {
        sbit
    } else {
        sbit + rne(m, (29 + (-126 - e)) as nat)
    }
}

/// `f as f64` for an `f32` `f` that is not NaN, on bits.
pub fn widen(b: u32) -> (r: u64)
    requires
        !crate::element::f32_bits_nan(b),
    ensures
        r as nat == widen_bits(b),
{
    proof { lemma2_to64(); lemma2_to64_rest(); }
    let sbit: u64 = if b >> 31u32 == 1 { 0x8000000000000000 } else { 0 };
    let exp: u64 = ((b >> 23u32) & 0xffu32) as u64;
    let frac: u64 = (b & 0x7fffffu32) as u64;
    assert((b >> 23u32) & 0xffu32 <= 0xff) by (bit_vector);
    assert(b & 0x7fffffu32 < 0x800000) by (bit_vector);
    assert(b >> 31u32 == 1 || b >> 31u32 == 0) by (bit_vector);
    if exp == 0xff {
        sbit + 0x7ff * 0x10000000000000 + frac * 0x20000000
    } else if exp == 0 {
        if frac == 0 {
            sbit
        } else {
            let n = bit_length(frac);
            proof {
                lemma_bit_len_bounds(frac as nat);
                if n < 24 {
                    lemma_pow2_strictly_increases(n as nat, 24);
                }
                lemma_pow2_adds((n - 1) as nat, (53 - n) as nat);
                lemma_pow2_adds(n as nat, (53 - n) as nat);
                lemma_pow2_pos((53 - n) as nat);
            }
            assert(n <= 24);
            let x = pow2_u64(53 - n);
            assert(pow2((n - 1) as nat) * x <= frac * x) by (nonlinear_arith)
                requires pow2((n - 1) as nat) <= frac, x > 0;
            assert(frac * x < pow2(n as nat) * x) by (nonlinear_arith)
                requires frac < pow2(n as nat), x > 0;
            sbit + (873 + n) * 0x10000000000000 + (frac * x - 0x10000000000000)
        }
    } else {
        sbit + (exp + 896) * 0x10000000000000 + frac * 0x20000000
    }
}

/// `f as f32` for an `f64` `f` that is not NaN, on bits.
pub fn narrow(b: u64) -> (r: u32)
    requires
        !crate::element::f64_bits_nan(b),
    ensures
        r as nat == narrow_bits(b),
{
    proof { lemma2_to64(); lemma2_to64_rest(); }
    let sbit: u32 = if b >> 63u64 == 1 { 0x80000000 } else { 0 };
    let exp: u64 = (b >> 52u64) & 0x7ffu64;
    let frac: u64 = b & 0xfffffffffffffu64;
    assert((b >> 52u64) & 0x7ffu64 <= 0x7ff) by (bit_vector);
    assert(b & 0xfffffffffffffu64 < 0x10000000000000) by (bit_vector);
    assert(b >> 63u64 == 1 || b >> 63u64 == 0) by (bit_vector);
    let m: u64 = frac + 0x10000000000000;
    if exp == 0x7ff {
        sbit + 0xff * 0x800000
    } else if exp == 0 {
        sbit
    } else if exp > 1023 + 127 {
        sbit + 0xff * 0x800000
    } else if exp >= 1023 - 126 {
        let q = round_half_even(m, 29);
        proof {
            lemma_div_between(m as int, 0x20000000, 0x800000, 0x1000000);
        }
        sbit + ((exp + 127 - 1023) as u32) * 0x800000 + (q as u32 - 0x800000)
    } else {
        let sh: u64 = 29 + (1023 - 126 - exp);
        if sh >= 64 {
            sbit
        } else {
            let q = round_half_even(m, sh);
            proof {
                lemma_pow2_adds(30, (sh - 30) as nat);
                lemma_pow2_pos((sh - 30) as nat);
                assert(pow2(sh as nat) >= pow2(30)) by (nonlinear_arith)
                    requires pow2(sh as nat) == pow2(30) * pow2((sh - 30) as nat), pow2((sh - 30) as nat) >= 1;
                lemma_div_between(m as int, pow2(sh as nat) as int, 0, 0x800000);
            }
            sbit + q as u32
        }
    }
}

} // verus!
