//! Conversions between a wire scalar and an unsigned integer.
//!
//! A wire scalar is the bit pattern of a 32-bit IEEE 754 single-precision
//! value, held as a `u32`. Identifiers and record counts travel on the wire
//! as scalars; reading one back is the hardware's truncating, saturating
//! scalar-to-unsigned cast, and writing one out is the round-to-nearest-even
//! unsigned-to-scalar cast. Both casts are pure functions of the bit
//! pattern, so they are written here as verified integer arithmetic on the
//! sign, exponent and mantissa fields. Integers below 2^24 survive the
//! round trip exactly ([`lemma_scalar_round_trip`]).

use vstd::arithmetic::div_mod::{
    lemma_div_by_multiple, lemma_div_is_ordered, lemma_fundamental_div_mod,
    lemma_fundamental_div_mod_converse,
};
use vstd::arithmetic::mul::{lemma_mul_inequality, lemma_mul_strict_inequality};
use vstd::arithmetic::power2::{lemma2_to64, lemma_pow2_adds, lemma_pow2_strictly_increases, pow2};
use vstd::prelude::*;

verus! {

/// Position of the highest set bit: `floor(log2(v))` for `v >= 1`, else 0.
pub open spec fn ilog2(v: nat) -> nat
    decreases v,
{
    if v < 2 {
        0
    } else {
        1 + ilog2(v / 2)
    }
}

/// `pow2(ilog2(v)) <= v < pow2(ilog2(v) + 1)` for every `v >= 1`.
pub proof fn lemma_ilog2_bounds(v: nat)
    requires
        v >= 1,
    ensures
        pow2(ilog2(v)) <= v,
        v < pow2(ilog2(v) + 1),
    decreases v,
{
    if v < 2 {
        lemma2_to64();
    } else {
        lemma_ilog2_bounds(v / 2);
        lemma_fundamental_div_mod(v as int, 2);
        lemma_pow2_adds(1, ilog2(v / 2));
        lemma_pow2_adds(1, ilog2(v / 2) + 1);
        lemma2_to64();
    }
}

/// The integer that a scalar truncates to: the value of the truncating,
/// saturating scalar-to-unsigned cast on the scalar with bit pattern `bits`.
/// Negative values and NaN give 0; positive infinity and values of 2^32 or
/// more saturate to `u32::MAX`.
pub open spec fn scalar_int(bits: u32) -> u32 {
    let exp: int = (bits as int) / 0x800000;
    let man: int = (bits as int) % 0x800000;
    if bits >= 0x80000000 {
        0u32
    } else if exp == 255 {
        if man == 0 {
            0xffffffffu32
        } else {
            0u32
        }
    } else if exp < 127 {
        0u32
    } else if exp <= 150 {
        (((0x800000 + man) / (pow2((150 - exp) as nat) as int)) as u32)
    } else if exp <= 158 {
        (((0x800000 + man) * (pow2((exp - 150) as nat) as int)) as u32)
    } else {
        0xffffffffu32
    }
}

/// The scalar nearest to the integer `v`: the bit pattern produced by the
/// round-to-nearest-even unsigned-to-scalar cast. Exact for `v < 2^24`.
pub open spec fn int_scalar(v: u32) -> u32 {
    if v == 0 {
        0u32
    } else {
        let k: nat = ilog2(v as nat);
        if k <= 23 {
            (((127 + k) * 0x800000 + (v as int) * (pow2((23 - k) as nat) as int)
                - 0x800000) as u32)
        } else {
            let p: int = pow2((k - 23) as nat) as int;
            let base: int = (v as int) / p;
            let rem: int = (v as int) % p;
            let half: int = pow2((k - 24) as nat) as int;
            let m: int = if rem > half || (rem == half && base % 2 == 1) {
                base + 1
            } else {
                base
            };
            if m == 0x1000000 {
                (((128 + k) * 0x800000) as u32)
            } else {
                (((127 + k) * 0x800000 + m - 0x800000) as u32)
            }
        }
    }
}

/// 2 to the power `e`, computed by repeated doubling.
pub fn pow2_u32(e: u32) -> (r: u32)
    requires
        e <= 31,
    ensures
        r as nat == pow2(e as nat),
        r >= 1,
{
    let mut i: u32 = 0;
    let mut p: u32 = 1;
    proof {
        lemma2_to64();
    }
    while i < e
        invariant
            i <= e <= 31,
            p as nat == pow2(i as nat),
        decreases e - i,
    {
        proof {
            lemma_pow2_adds(i as nat, 1);
            lemma2_to64();
            if (i as nat) + 1 < 31 {
                lemma_pow2_strictly_increases((i as nat) + 1, 31);
            }
        }
        p = p * 2;
        i = i + 1;
    }
    proof {
        vstd::arithmetic::power2::lemma_pow2_pos(e as nat);
    }
    p
}

/// Position of the highest set bit of `v`.
pub fn ilog2_u32(v: u32) -> (r: u32)
    requires
        v >= 1,
    ensures
        r as nat == ilog2(v as nat),
        r <= 31,
{
    let mut t: u32 = v;
    let mut k: u32 = 0;
    while t >= 2
        invariant
            t >= 1,
            ilog2(v as nat) == k as nat + ilog2(t as nat),
            k <= 31,
        decreases t,
    {
        proof {
            lemma_ilog2_bounds(v as nat);
            lemma2_to64();
            if ilog2(v as nat) >= 32 {
                lemma_pow2_strictly_increases(32, ilog2(v as nat));
            }
            // ilog2(t) >= 1 since t >= 2, so k + 1 <= ilog2(v) <= 31.
            assert(ilog2(t as nat) >= 1);
        }
        t = t / 2;
        k = k + 1;
    }
    proof {
        lemma_ilog2_bounds(v as nat);
        lemma2_to64();
        if ilog2(v as nat) >= 32 {
            lemma_pow2_strictly_increases(32, ilog2(v as nat));
        }
    }
    k
}

/// Truncating, saturating cast of a scalar to an unsigned integer.
pub fn scalar_to_int(bits: u32) -> (r: u32)
    ensures
        r == scalar_int(bits),
{
    if bits >= 0x80000000 {
        return 0;
    }
    let exp: u32 = bits / 0x800000;
    let man: u32 = bits % 0x800000;
    if exp == 255 {
        if man == 0 {
            0xffffffff
        } else {
            0
        }
    } else if exp < 127 {
        0
    } else if exp <= 150 {
        let p: u32 = pow2_u32(150 - exp);
        (0x800000 + man) / p
    } else if exp <= 158 {
        let p: u32 = pow2_u32(exp - 150);
        proof {
            lemma2_to64();
            if ((exp - 150) as nat) < 8 {
                lemma_pow2_strictly_increases((exp - 150) as nat, 8);
            }
            assert((0x800000 + man as int) * (p as int) < 0x100000000) by (nonlinear_arith)
                requires
                    man < 0x800000,
                    0 < p <= 0x100,
            ;
        }
        (0x800000 + man) * p
    } else {
        0xffffffff
    }
}

/// Round-to-nearest-even cast of an unsigned integer to a scalar.
pub fn int_to_scalar(v: u32) -> (r: u32)
    ensures
        r == int_scalar(v),
{
    if v == 0 {
        return 0;
    }
    let k: u32 = ilog2_u32(v);
    proof {
        lemma_ilog2_bounds(v as nat);
    }
    if k <= 23 {
        let p: u32 = pow2_u32(23 - k);
        proof {
            lemma_pow2_adds(k as nat, (23 - k) as nat);
            lemma_pow2_adds((k as nat) + 1, (23 - k) as nat);
            lemma2_to64();
            // v * p < pow2(k + 1) * pow2(23 - k) == pow2(24)
            lemma_mul_strict_inequality(v as int, pow2((k as nat) + 1) as int, pow2((23 - k) as nat) as int);
            // pow2(k) * pow2(23 - k) == pow2(23) <= v * p
            lemma_mul_inequality(pow2(k as nat) as int, v as int, pow2((23 - k) as nat) as int);
        }
        let m: u32 = v * p;
        (127 + k) * 0x800000 + (m - 0x800000)
    } else {
        let drop_bits: u32 = k - 23;
        let p: u32 = pow2_u32(drop_bits);
        let base: u32 = v / p;
        let rem: u32 = v % p;
        let half: u32 = pow2_u32(drop_bits - 1);
        proof {
            lemma2_to64();
            // base >= pow2(23): v >= pow2(k) and pow2(k) / p == pow2(23).
            lemma_pow2_adds(23, drop_bits as nat);
            lemma_div_by_multiple(pow2(23) as int, p as int);
            lemma_div_is_ordered(pow2(k as nat) as int, v as int, p as int);
            // base < pow2(24): v <= pow2(k + 1) - 1 and (pow2(k + 1) - 1) / p == pow2(24) - 1.
            lemma_pow2_adds(24, drop_bits as nat);
            lemma_fundamental_div_mod_converse(
                pow2((k as nat) + 1) as int - 1,
                p as int,
                pow2(24) as int - 1,
                p as int - 1,
            );
            lemma_div_is_ordered(v as int, pow2((k as nat) + 1) as int - 1, p as int);
        }
        let up: bool = rem > half || (rem == half && base % 2 == 1);
        let m: u32 = if up {
            base + 1
        } else {
            base
        };
        if m == 0x1000000 {
            (128 + k) * 0x800000
        } else {
            (127 + k) * 0x800000 + (m - 0x800000)
        }
    }
}

/// Law: an identifier below 2^24 is encoded to the wire and read back
/// without loss — truncating the scalar nearest to `v` gives `v` again.
pub proof fn lemma_scalar_round_trip(v: u32)
    requires
        v < 0x1000000,
    ensures
        scalar_int(int_scalar(v)) == v,
{
    if v == 0 {
        assert(scalar_int(0) == 0);
    } else {
        lemma_ilog2_bounds(v as nat);
        let k: nat = ilog2(v as nat);
        lemma2_to64();
        if k > 23 {
            lemma_pow2_strictly_increases(24, k);
        }
        assert(k <= 23);
        let q: int = pow2((23 - k) as nat) as int;
        lemma_pow2_adds(k, (23 - k) as nat);
        lemma_pow2_adds(k + 1, (23 - k) as nat);
        // pow2(23) <= v * q < pow2(24)
        lemma_mul_inequality(pow2(k) as int, v as int, q);
        lemma_mul_strict_inequality(v as int, pow2(k + 1) as int, q);
        let man: int = (v as int) * q - 0x800000;
        assert(0 <= man < 0x800000);
        let bits: int = (127 + k) * 0x800000 + man;
        assert(int_scalar(v) == bits as u32);
        assert(bits < 0x80000000);
        lemma_fundamental_div_mod_converse(bits, 0x800000, 127 + k as int, man);
        // The truncation branch divides back by the same power of two.
        assert(0x800000 + man == (v as int) * q);
        lemma_div_by_multiple(v as int, q);
        assert(((v as int) * q) / q == v as int);
        assert(scalar_int(bits as u32) == v);
    }
}

} // verus!
