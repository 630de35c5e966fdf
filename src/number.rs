use vstd::prelude::*;
use vstd::arithmetic::power2::{pow2, lemma2_to64, lemma2_to64_rest, lemma_pow2_adds, lemma_pow2_pos};
use vstd::arithmetic::div_mod::lemma_fundamental_div_mod;
use vstd::arithmetic::mul::lemma_mul_inequality;
use vstd::bits::{lemma_u64_shr_is_div, lemma_u64_shl_is_mul};

verus! {

/// Mask of the exponent field of a double, in place.
pub const EXP_MASK: u64 = 0x7ff0_0000_0000_0000;

/// Mask of the fraction field of a double.
pub const FRAC_MASK: u64 = 0x000f_ffff_ffff_ffff;

/// Mask of everything but the sign bit of a double.
pub const ABS_MASK: u64 = 0x7fff_ffff_ffff_ffff;

/// The bit pattern `b` is a NaN.
pub open spec fn is_nan_bits(b: u64) -> bool {
    b & EXP_MASK == EXP_MASK && b & FRAC_MASK != 0
}

/// The bit pattern `b` is `+0.0` or `-0.0`.
pub open spec fn is_zero_bits(b: u64) -> bool {
    b & ABS_MASK == 0
}

/// The sign bit of `b` is set.
pub open spec fn is_neg_bits(b: u64) -> bool {
    b >> 63u64 == 1
}

/// The biased exponent field of `b`.
pub open spec fn exp_of(b: u64) -> nat {
    ((b >> 52u64) & 0x7ffu64) as nat
}

/// The significand of a normal double `b`, hidden bit included.
pub open spec fn sig_of(b: u64) -> nat {
    (b & FRAC_MASK) as nat + pow2(52)
}

/// The double `b` is finite and has no fractional part (`fract() == 0.0`).
pub open spec fn is_integral_bits(b: u64) -> bool {
    exp_of(b) != 2047 && (is_zero_bits(b) || (exp_of(b) >= 1023 && (exp_of(b) >= 1075 || sig_of(b)
        % pow2((1075 - exp_of(b)) as nat) == 0)))
}

/// The absolute value of the double `b`, rounded toward zero (infinite values
/// give a number past every `i64`).
pub open spec fn trunc_magnitude(b: u64) -> nat {
    if exp_of(b) < 1023 {
        0
    } else if exp_of(b) >= 1075 {
        sig_of(b) * pow2((exp_of(b) - 1075) as nat)
    } else {
        sig_of(b) / pow2((1075 - exp_of(b)) as nat)
    }
}

/// The double `b` converted to `i64` as `as i64` does: toward zero, saturating
/// at the bounds, and NaN to zero.
pub open spec fn trunc_of(b: u64) -> i64 {
    if is_nan_bits(b) {
        0
    } else if is_neg_bits(b) {
        if trunc_magnitude(b) > 0x8000_0000_0000_0000 {
            i64::MIN
        } else {
            (0 - trunc_magnitude(b)) as i64
        }
    } else {
        if trunc_magnitude(b) > i64::MAX {
            i64::MAX
        } else {
            trunc_magnitude(b) as i64
        }
    }
}

proof fn lemma_fields(b: u64)
    ensures
        (b >> 52u64) & 0x7ffu64 == 2047 <==> b & EXP_MASK == EXP_MASK,
        (b >> 52u64) & 0x7ffu64 < 2048,
        (b & FRAC_MASK) | 0x10_0000_0000_0000u64 == (b & FRAC_MASK) + 0x10_0000_0000_0000u64,
        (b & FRAC_MASK) < 0x10_0000_0000_0000u64,
        b & ABS_MASK == 0 ==> (b >> 52u64) & 0x7ffu64 == 0,
{
    assert((b >> 52u64) & 0x7ffu64 == 2047 <==> b & 0x7ff0_0000_0000_0000u64
        == 0x7ff0_0000_0000_0000u64) by (bit_vector);
    assert((b >> 52u64) & 0x7ffu64 < 2048) by (bit_vector);
    assert((b & 0x000f_ffff_ffff_ffffu64) | 0x10_0000_0000_0000u64 == (b
        & 0x000f_ffff_ffff_ffffu64) + 0x10_0000_0000_0000u64) by (bit_vector);
    assert((b & 0x000f_ffff_ffff_ffffu64) < 0x10_0000_0000_0000u64) by (bit_vector);
    assert(b & 0x7fff_ffff_ffff_ffffu64 == 0 ==> (b >> 52u64) & 0x7ffu64 == 0) by (bit_vector);
}

/// Tells whether the double `b` is finite with no fractional part.
pub fn is_integral(b: u64) -> (r: bool)
    ensures
        r == is_integral_bits(b),
{
    proof {
        lemma_fields(b);
        lemma2_to64();
        lemma2_to64_rest();
    }
    let e = (b >> 52u64) & 0x7ffu64;
    if e == 2047 {
        false
    } else if b & ABS_MASK == 0 {
        true
    } else if e < 1023 {
        false
    } else if e >= 1075 {
        true
    } else {
        let k: u64 = 1075 - e;
        let sig: u64 = (b & FRAC_MASK) | 0x10_0000_0000_0000u64;
        let q: u64 = sig >> k;
        assert(sig as nat == sig_of(b));
        assert(k as nat == (1075 - exp_of(b)) as nat);
        proof {
            lemma_u64_shr_is_div(sig, k);
            lemma_pow2_pos(k as nat);
            lemma_fundamental_div_mod(sig as int, pow2(k as nat) as int);
            assert(q * pow2(k as nat) <= sig) by (nonlinear_arith)
                requires
                    q == sig as nat / pow2(k as nat),
                    pow2(k as nat) > 0,
            ;
            lemma_u64_shl_is_mul(q, k);
            let p = pow2(k as nat) as int;
            let si = sig as int;
            assert((q * p == si) <==> (si % p == 0)) by (nonlinear_arith)
                requires
                    si == p * (si / p) + si % p,
                    q == si / p,
                    p > 0,
            ;
        }
        let r = (q << k) == sig;
        assert(r == (sig_of(b) % pow2((1075 - exp_of(b)) as nat) == 0));
        r
    }
}

/// Converts the double `b` to `i64` as `as i64` does.
pub fn trunc(b: u64) -> (r: i64)
    ensures
        r == trunc_of(b),
{
    proof {
        lemma_fields(b);
        lemma2_to64();
        lemma2_to64_rest();
    }
    let e = (b >> 52u64) & 0x7ffu64;
    let neg = b >> 63u64 == 1;
    if b & EXP_MASK == EXP_MASK && b & FRAC_MASK != 0 {
        return 0;
    }
    if e < 1023 {
        return 0;
    }
    let sig: u64 = (b & FRAC_MASK) | 0x10_0000_0000_0000u64;
    if e >= 1086 {
        proof {
            let k = (e - 1075) as nat;
            lemma_pow2_adds(11, (k - 11) as nat);
            lemma_pow2_pos((k - 11) as nat);
            assert(sig_of(b) * pow2(k) >= 0x8000_0000_0000_0000) by (nonlinear_arith)
                requires
                    sig_of(b) >= 0x10_0000_0000_0000,
                    pow2(k) == pow2(11) * pow2((k - 11) as nat),
                    pow2(11) == 0x800,
                    pow2((k - 11) as nat) >= 1,
                    k >= 11,
            ;
        }
        return if neg {
            i64::MIN
        } else {
            i64::MAX
        };
    }
    let mag: u64 = if e >= 1075 {
        let k: u64 = e - 1075;
        proof {
            lemma_pow2_adds(k as nat, (10 - k) as nat);
            lemma_pow2_pos((10 - k) as nat);
            assert(sig * pow2(k as nat) < 0x8000_0000_0000_0000) by (nonlinear_arith)
                requires
                    sig < 0x20_0000_0000_0000,
                    pow2(10) == pow2(k as nat) * pow2((10 - k) as nat),
                    pow2(10) == 0x400,
                    pow2((10 - k) as nat) >= 1,
            ;
            lemma_u64_shl_is_mul(sig, k);
        }
        sig << k
    } else {
        let k: u64 = 1075 - e;
        proof {
            lemma_u64_shr_is_div(sig, k);
            lemma_pow2_pos(k as nat);
            assert(sig as nat / pow2(k as nat) <= sig) by (nonlinear_arith)
                requires
                    pow2(k as nat) > 0,
            ;
        }
        sig >> k
    };
    assert(mag == trunc_magnitude(b));
    assert(mag < 0x8000_0000_0000_0000);
    if neg {
        -(mag as i64)
    } else {
        mag as i64
    }
}

} // verus!
