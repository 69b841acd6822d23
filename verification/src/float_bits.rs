//! IEEE 754 bit-pattern arithmetic used by the formats: widening a binary32
//! to a binary64, truncating a binary64 toward zero, and the exact binary64
//! of a small integer.
use vstd::prelude::*;
use vstd::arithmetic::power2::*;

verus! {

broadcast use {lemma_pow2_pos, lemma_pow2_unfold};

/// The index of the most significant set bit of `m` (0 for `m <= 1`).
pub open spec fn highest_bit(m: nat) -> nat
    decreases m,
{
    if m <= 1 {
        0
    } else {
        1 + highest_bit(m / 2)
    }
}

/// Sign bit of a binary32 pattern.
pub open spec fn f32_sign(b: u32) -> nat {
    (b / 0x8000_0000) as nat
}

/// Biased exponent field of a binary32 pattern.
pub open spec fn f32_exp(b: u32) -> nat {
    ((b / 0x80_0000) % 0x100) as nat
}

/// Fraction field of a binary32 pattern.
pub open spec fn f32_frac(b: u32) -> nat {
    (b % 0x80_0000) as nat
}

/// The binary64 pattern holding the same number as the binary32 pattern `b`
/// (every binary32 number is exactly representable).  A NaN keeps its
/// payload and becomes quiet.
pub open spec fn f32_to_f64_bits(b: u32) -> u64 {
    let e = f32_exp(b);
    let m = f32_frac(b);
    let exp_mant: nat = if e == 0 && m == 0 {
        0
    } else if e == 0 {
        let k = highest_bit(m);
        (k + 874) * 0x10_0000_0000_0000 + ((m - pow2(k)) * pow2((52 - k) as nat)) as nat
    } else if e == 0xFF {
        let q: nat = if m == 0 || m >= 0x40_0000 { m } else { m + 0x40_0000 };
        0x7FF * 0x10_0000_0000_0000 + q * 0x2000_0000
    } else {
        (e + 896) * 0x10_0000_0000_0000 + m * 0x2000_0000
    };
    (f32_sign(b) * 0x8000_0000_0000_0000 + exp_mant) as u64
}

/// `highest_bit(m)` is the exponent of the largest power of two not above `m`.
pub proof fn lemma_highest_bit_bounds(m: nat)
    requires
        m >= 1,
    ensures
        pow2(highest_bit(m)) <= m < pow2(highest_bit(m) + 1),
    decreases m,
{
    lemma2_to64();
    if m <= 1 {
    } else {
        lemma_highest_bit_bounds(m / 2);
        let h = highest_bit(m / 2);
        assert(highest_bit(m) == 1 + h);
        assert(pow2(h + 1) == 2 * pow2(h));
        assert(pow2(h + 2) == 2 * pow2(h + 1));
        assert((m / 2) * 2 <= m < (m / 2) * 2 + 2);
    }
}

proof fn lemma_highest_bit_scaled(m: nat, t: nat)
    requires
        m >= 1,
        pow2(23) <= m * pow2(t) < pow2(24),
    ensures
        highest_bit(m) + t == 23,
{
    let k = highest_bit(m);
    lemma_highest_bit_bounds(m);
    lemma_pow2_adds(k, t);
    lemma_pow2_adds(k + 1, t);
    vstd::arithmetic::mul::lemma_mul_inequality(pow2(k) as int, m as int, pow2(t) as int);
    vstd::arithmetic::mul::lemma_mul_strict_inequality(m as int, pow2(k + 1) as int, pow2(t) as int);
    if k + t < 23 {
        lemma_pow2_strictly_increases(k + t + 1, 24);
        if k + t + 1 < 23 {
            lemma_pow2_strictly_increases(k + t + 1, 23);
        }
    } else if k + t > 23 {
        lemma_pow2_strictly_increases(23, k + t);
        if k + t > 24 {
            lemma_pow2_strictly_increases(24, k + t);
        }
    }
}

/// Everything of the widened pattern but its sign bit stays below 2^63.
proof fn lemma_widened_magnitude(b: u32)
    ensures
        ({
            let e = f32_exp(b);
            let m = f32_frac(b);
            let exp_mant: nat = if e == 0 && m == 0 {
                0
            } else if e == 0 {
                let k = highest_bit(m);
                (k + 874) * 0x10_0000_0000_0000 + ((m - pow2(k)) * pow2((52 - k) as nat)) as nat
            } else if e == 0xFF {
                let q: nat = if m == 0 || m >= 0x40_0000 { m } else { m + 0x40_0000 };
                0x7FF * 0x10_0000_0000_0000 + q * 0x2000_0000
            } else {
                (e + 896) * 0x10_0000_0000_0000 + m * 0x2000_0000
            };
            &&& exp_mant < 0x8000_0000_0000_0000
            &&& f32_to_f64_bits(b) as int == f32_sign(b) * 0x8000_0000_0000_0000 + exp_mant
        }),
{
    lemma2_to64();
    let e = f32_exp(b);
    let m = f32_frac(b);
    assert(f32_sign(b) <= 1);
    assert(e < 0x100);
    assert(m < 0x80_0000);
    if e == 0 && m != 0 {
        let k = highest_bit(m);
        lemma_highest_bit_bounds(m);
        if k > 22 {
            lemma_pow2_strictly_increases(23, k);
        }
        assert(k <= 22);
        let p = pow2(k);
        let q = pow2((52 - k) as nat);
        lemma_pow2_adds(k, (52 - k) as nat);
        assert(p * q == 0x10_0000_0000_0000);
        assert(pow2(k + 1) == 2 * p);
        let r: nat = (m - p) as nat;
        assert(r * q < 0x10_0000_0000_0000) by (nonlinear_arith)
            requires
                r < p,
                p * q == 0x10_0000_0000_0000,
                q > 0,
        ;
    } else if e == 0xFF {
        let q: nat = if m == 0 || m >= 0x40_0000 { m } else { m + 0x40_0000 };
        assert(q < 0x80_0000);
    }
}

/// Widening keeps the sign: the binary64 pattern is negative exactly when
/// the binary32 pattern is, and the negation of a binary32 number widens to
/// the negation of its widening.
pub proof fn lemma_widen_sign(b: u32)
    ensures
        (f32_to_f64_bits(b) >= 0x8000_0000_0000_0000) == (b >= 0x8000_0000),
        b < 0x8000_0000 ==> f32_to_f64_bits((b + 0x8000_0000) as u32) == f32_to_f64_bits(b) + 0x8000_0000_0000_0000,
{
    lemma_widened_magnitude(b);
    if b < 0x8000_0000 {
        let nb = (b + 0x8000_0000) as u32;
        lemma_widened_magnitude(nb);
        assert(f32_sign(nb) == 1);
        assert(f32_sign(b) == 0);
        assert(nb / 0x80_0000 == b / 0x80_0000 + 0x100);
        assert(f32_exp(nb) == f32_exp(b));
        assert(f32_frac(nb) == f32_frac(b));
    }
}

/// Widens a binary32 bit pattern to the binary64 pattern of the same number.
pub fn f32_to_f64(b: u32) -> (res: u64)
    ensures
        res == f32_to_f64_bits(b),
{
    let sign = (b / 0x8000_0000) as u64;
    let e = ((b / 0x80_0000) % 0x100) as u64;
    let m = (b % 0x80_0000) as u64;
    let exp_mant: u64 = if e == 0 && m == 0 {
        0
    } else if e == 0 {
        // Normalise the subnormal fraction: mm = m * 2^t lands in [2^23, 2^24).
        let mut mm: u64 = m;
        let mut t: u64 = 0;
        let mut f: u64 = 1;
        proof {
            lemma2_to64();
        }
        while mm < 0x80_0000
            invariant
                1 <= m < 0x80_0000,
                t <= 23,
                f == pow2(t as nat),
                mm == m * f,
                f <= mm,
                1 <= mm < 0x100_0000,
                mm < 0x80_0000 ==> t < 23,
            decreases 23 - t,
        {
            assert(pow2((t + 1) as nat) == 2 * pow2(t as nat));
            assert(m * (f * 2) == (m * f) * 2) by (nonlinear_arith);
            mm = mm * 2;
            f = f * 2;
            t = t + 1;
            proof {
                if t < 23 && mm >= 0x80_0000 {
                } else if mm < 0x80_0000 && t >= 23 {
                    lemma2_to64();
                    lemma_pow2_strictly_increases(22, t as nat);
                }
            }
        }
        proof {
            lemma2_to64();
            lemma_highest_bit_scaled(m as nat, t as nat);
            let k = highest_bit(m as nat);
            lemma_pow2_adds(k, t as nat);
            lemma_pow2_adds(29, t as nat);
            assert((52 - k) as nat == 29 + t);
            let p = pow2(t as nat) as int;
            let pk = pow2(k) as int;
            let d = m - pk;
            assert(pow2((52 - k) as nat) == 0x2000_0000 * p);
            assert(d * (0x2000_0000 * p) == (d * p) * 0x2000_0000) by (nonlinear_arith);
            assert(d * p == m * p - pk * p) by (nonlinear_arith) requires d == m - pk;
            assert(pk * p == 0x80_0000);
            assert(mm == m * p);
            assert((m - pk) * pow2((52 - k) as nat) == (mm - 0x80_0000) * 0x2000_0000);
        }
        (897 - t) * 0x10_0000_0000_0000 + (mm - 0x80_0000) * 0x2000_0000
    } else if e == 0xFF {
        let q: u64 = if m == 0 || m >= 0x40_0000 { m } else { m + 0x40_0000 };
        0x7FF * 0x10_0000_0000_0000 + q * 0x2000_0000
    } else {
        (e + 896) * 0x10_0000_0000_0000 + m * 0x2000_0000
    };
    sign * 0x8000_0000_0000_0000 + exp_mant
}

/// The integer that a binary64 pattern truncates to (toward zero),
/// saturating at the bounds of `i64`; a NaN gives 0.
pub open spec fn f64_trunc(b: u64) -> i64 {
    let neg = b >= 0x8000_0000_0000_0000;
    let e = ((b / 0x10_0000_0000_0000) % 0x800) as nat;
    let m = (b % 0x10_0000_0000_0000) as nat;
    if e == 0x7FF && m != 0 {
        0
    } else {
        let mag: int = if e == 0x7FF {
            pow2(64) as int
        } else if e < 1023 {
            0
        } else if e >= 1075 {
            ((pow2(52) + m) * pow2((e - 1075) as nat)) as int
        } else {
            ((pow2(52) + m) / pow2((1075 - e) as nat)) as int
        };
        if neg {
            if mag >= 0x8000_0000_0000_0000 {
                i64::MIN
            } else {
                (-mag) as i64
            }
        } else {
            if mag > 0x7FFF_FFFF_FFFF_FFFF {
                i64::MAX
            } else {
                mag as i64
            }
        }
    }
}

/// Truncates the number of a binary64 pattern toward zero, saturating at
/// the bounds of `i64`; a NaN gives 0.
pub fn f64_bits_to_i64(b: u64) -> (r: i64)
    ensures
        r == f64_trunc(b),
{
    let neg = b >= 0x8000_0000_0000_0000;
    let e = (b / 0x10_0000_0000_0000) % 0x800;
    let m = b % 0x10_0000_0000_0000;
    proof {
        lemma2_to64();
        lemma2_to64_rest();
    }
    if e == 0x7FF && m != 0 {
        return 0;
    }
    if e == 0x7FF {
        return if neg { i64::MIN } else { i64::MAX };
    }
    if e < 1023 {
        return 0;
    }
    let full = m + 0x10_0000_0000_0000;
    if e >= 1086 {
        // The magnitude is at least 2^63.
        proof {
            let k = (e - 1075) as nat;
            lemma_pow2_adds(11, (k - 11) as nat);
            vstd::arithmetic::mul::lemma_mul_inequality(0x10_0000_0000_0000, full as int, pow2(k) as int);
            vstd::arithmetic::mul::lemma_mul_inequality(1, pow2((k - 11) as nat) as int, 0x8000_0000_0000_0000);
            assert(0x10_0000_0000_0000 * pow2(k) == 0x8000_0000_0000_0000 * pow2((k - 11) as nat)) by (nonlinear_arith)
                requires pow2(k) == pow2(11) * pow2((k - 11) as nat), pow2(11) == 0x800;
        }
        return if neg { i64::MIN } else { i64::MAX };
    }
    let mag: u64 = if e >= 1075 {
        let k = e - 1075;
        proof {
            if k < 10 {
                lemma_pow2_strictly_increases(k as nat, 10);
            }
            assert(pow2(k as nat) <= 0x400);
            vstd::arithmetic::mul::lemma_mul_strict_inequality(full as int, 0x20_0000_0000_0000, pow2(k as nat) as int);
            vstd::arithmetic::mul::lemma_mul_inequality(pow2(k as nat) as int, 0x400, 0x20_0000_0000_0000);
            vstd::bits::lemma_u64_shl_is_mul(full, k);
        }
        let r = full << k;
        assert(r < 0x8000_0000_0000_0000);
        r
    } else {
        let k = 1075 - e;
        proof {
            vstd::bits::lemma_u64_shr_is_div(full, k);
            lemma_pow2_pos(k as nat);
            vstd::arithmetic::div_mod::lemma_div_is_ordered_by_denominator(full as int, 1, pow2(k as nat) as int);
            assert(full as int / 1 == full);
        }
        let r = full >> k;
        assert(r < 0x8000_0000_0000_0000);
        r
    };
    assert(mag < 0x8000_0000_0000_0000);
    if neg {
        -(mag as i64)
    } else {
        mag as i64
    }
}

/// The binary64 pattern of an integer of magnitude below 2^53 (exactly
/// representable); zero gives positive zero.
pub open spec fn i64_to_f64_bits(x: int) -> u64 {
    if x == 0 {
        0
    } else {
        let a: nat = if x < 0 { (-x) as nat } else { x as nat };
        let k = highest_bit(a);
        let sign: nat = if x < 0 { 0x8000_0000_0000_0000 } else { 0 };
        (sign + (1023 + k) * 0x10_0000_0000_0000 + (a - pow2(k)) * pow2((52 - k) as nat)) as u64
    }
}

/// The exponent and fraction fields of an integer below 2^53 fit.
proof fn lemma_int_fields(a: u64, k: u64)
    requires
        1 <= a < 0x20_0000_0000_0000,
        k == highest_bit(a as nat),
    ensures
        k <= 52,
        pow2(k as nat) <= a,
        (1u64 << k) == pow2(k as nat),
        ((a - pow2(k as nat)) as u64) << ((52 - k) as u64) == (a - pow2(k as nat)) * pow2((52 - k) as nat),
        (a - pow2(k as nat)) * pow2((52 - k) as nat) < 0x10_0000_0000_0000,
{
    lemma2_to64();
    lemma_highest_bit_bounds(a as nat);
    if k > 52 {
        lemma_pow2_strictly_increases(53, k as nat);
    }
    lemma_pow2_adds(k as nat, (52 - k) as nat);
    vstd::arithmetic::mul::lemma_mul_strict_inequality(
        (a - pow2(k as nat)) as int,
        pow2(k as nat) as int,
        pow2((52 - k) as nat) as int,
    );
    vstd::bits::lemma_u64_shl_is_mul(1, k);
    vstd::bits::lemma_u64_shl_is_mul((a - pow2(k as nat)) as u64, (52 - k) as u64);
}

/// The binary64 pattern of an integer of magnitude below 2^53.
pub fn i64_to_f64(x: i64) -> (r: u64)
    requires
        -0x20_0000_0000_0000 < x < 0x20_0000_0000_0000,
    ensures
        r == i64_to_f64_bits(x as int),
{
    if x == 0 {
        return 0;
    }
    let a: u64 = if x < 0 { (-x) as u64 } else { x as u64 };
    proof {
        lemma2_to64();
        lemma_highest_bit_bounds(a as nat);
        if highest_bit(a as nat) >= 64 {
            lemma_pow2_strictly_increases(53, highest_bit(a as nat));
        }
    }
    let mut t: u64 = a;
    let mut k: u64 = 0;
    while t > 1
        invariant
            1 <= t <= a,
            highest_bit(a as nat) < 64,
            highest_bit(a as nat) == k + highest_bit(t as nat),
        decreases t,
    {
        t = t / 2;
        k = k + 1;
    }
    proof {
        lemma_int_fields(a, k);
    }
    let top: u64 = 1u64 << k;
    let frac: u64 = (a - top) << (52 - k);
    let sign: u64 = if x < 0 { 0x8000_0000_0000_0000 } else { 0 };
    sign + (1023 + k) * 0x10_0000_0000_0000 + frac
}

/// An integer of magnitude below 2^53, made a binary64, truncates back to
/// itself.
#[verifier::spinoff_prover]
#[verifier::rlimit(60)]
pub proof fn lemma_trunc_of_int(x: int)
    requires
        -0x20_0000_0000_0000 < x < 0x20_0000_0000_0000,
    ensures
        f64_trunc(i64_to_f64_bits(x)) == x,
{
    lemma2_to64();
    if x == 0 {
        assert(i64_to_f64_bits(x) == 0);
        return;
    }
    let a: nat = if x < 0 { (-x) as nat } else { x as nat };
    let k = highest_bit(a);
    lemma_highest_bit_bounds(a);
    if k > 52 {
        lemma_pow2_strictly_increases(52, k);
    }
    assert(k <= 52);
    let p = pow2(k);
    let q = pow2((52 - k) as nat);
    lemma_pow2_adds(k, (52 - k) as nat);
    assert(p * q == 0x10_0000_0000_0000);
    assert(pow2(k + 1) == 2 * p);
    let r: nat = (a - p) as nat;
    assert(r < p);
    let frac: nat = r * q;
    assert(frac < 0x10_0000_0000_0000) by (nonlinear_arith)
        requires
            r < p,
            p * q == 0x10_0000_0000_0000,
            q > 0,
            frac == r * q,
    ;
    let sign: nat = if x < 0 { 0x8000_0000_0000_0000 } else { 0 };
    let full: nat = sign + (1023 + k) * 0x10_0000_0000_0000 + frac;
    assert(full < 0x1_0000_0000_0000_0000);
    let bits = i64_to_f64_bits(x);
    assert(bits as nat == full);
    let hi: int = (if x < 0 { 2048int } else { 0int }) + 1023 + k;
    vstd::arithmetic::div_mod::lemma_fundamental_div_mod_converse(full as int, 0x10_0000_0000_0000, hi, frac as int);
    vstd::arithmetic::div_mod::lemma_fundamental_div_mod_converse(
        hi,
        0x800,
        if x < 0 { 1int } else { 0int },
        (1023 + k) as int,
    );
    assert(((bits / 0x10_0000_0000_0000) % 0x800) as nat == 1023 + k);
    assert((bits % 0x10_0000_0000_0000) as nat == frac);
    assert((bits >= 0x8000_0000_0000_0000) == (x < 0));
    assert(0x10_0000_0000_0000 + frac == a * q) by (nonlinear_arith)
        requires
            p * q == 0x10_0000_0000_0000,
            frac == r * q,
            r + p == a,
    ;
    let e = ((bits / 0x10_0000_0000_0000) % 0x800) as nat;
    let m = (bits % 0x10_0000_0000_0000) as nat;
    assert(e != 0x7FF);
    assert(pow2(52) == 0x10_0000_0000_0000);
    let mag: int = if e >= 1075 {
        ((pow2(52) + m) * pow2((e - 1075) as nat)) as int
    } else {
        ((pow2(52) + m) / pow2((1075 - e) as nat)) as int
    };
    if k == 52 {
        assert(q == 1);
        assert(e == 1075);
        assert((e - 1075) as nat == 0);
        assert(pow2(0) == 1);
        assert(frac == r) by (nonlinear_arith)
            requires
                q == 1,
                frac == r * q,
        ;
        assert((pow2(52) + m) * pow2((e - 1075) as nat) == pow2(52) + m);
        assert(mag == a);
    } else {
        assert((1075 - e) as nat == (52 - k) as nat);
        assert(pow2((1075 - e) as nat) == q);
        assert(pow2(52) + m == a * q);
        vstd::arithmetic::div_mod::lemma_fundamental_div_mod_converse((a * q) as int, q as int, a as int, 0);
        assert(((pow2(52) + m) / pow2((1075 - e) as nat)) as int == a);
        assert(mag == a);
    }
    assert(a < 0x8000_0000_0000_0000);
    assert(f64_trunc(bits) == (if x < 0 { -mag } else { mag }));
}

} // verus!
