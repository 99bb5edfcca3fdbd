//! A fixed-point binary logarithm on integers, used by the entropy-based
//! threshold. The value `log2_fp(x)` carries sixteen fractional bits and is
//! computed exactly by the classic digit-by-digit squaring method, so the
//! same argument always gives the same result.

use vstd::arithmetic::div_mod::{lemma_div_is_ordered, lemma_multiply_divide_lt};
use vstd::arithmetic::power2::{lemma2_to64, lemma2_to64_rest, lemma_pow2_adds, pow2};
use vstd::prelude::*;

verus! {

/// The fixed-point scale: results carry this many fractional bits.
pub const LOG_FRAC_BITS: u32 = 16;

/// The integer part of the binary logarithm of `x >= 1`.
pub open spec fn floor_log2(x: nat) -> nat
    decreases x,
{
    if x < 2 {
        0
    } else {
        1 + floor_log2(x / 2)
    }
}

/// The `k` fractional logarithm bits of a mantissa `m` scaled into
/// `[2^63, 2^64)`, most significant first, by repeated squaring.
pub open spec fn frac_bits(m: nat, k: nat) -> nat
    decreases k,
{
    if k == 0 {
        0
    } else {
        let z = (m * m) / 0x8000_0000_0000_0000;
        if z >= 0x1_0000_0000_0000_0000 {
            pow2((k - 1) as nat) + frac_bits(z / 2, (k - 1) as nat)
        } else {
            frac_bits(z, (k - 1) as nat)
        }
    }
}

/// The fixed-point binary logarithm of `x >= 1`: the integer part in the high
/// bits, sixteen fractional bits below.
pub open spec fn log2_fp(x: nat) -> nat {
    floor_log2(x) * 0x10000 + frac_bits(x * pow2((63 - floor_log2(x)) as nat), 16)
}

/// Computes `log2_fp` exactly.
pub fn log2_fixed(x: u64) -> (r: u64)
    requires
        1 <= x,
    ensures
        r == log2_fp(x as nat),
        r < 64 * 0x10000,
{
    proof {
        lemma2_to64();
        lemma2_to64_rest();
    }
    // Integer part: after the loop, pow2(fl) <= x < pow2(fl + 1).
    let mut t: u64 = x;
    let mut fl: u32 = 0;
    while t >= 2
        invariant
            1 <= t,
            fl <= 63,
            pow2(fl as nat) * t <= x as nat,
            (x as nat) < pow2(fl as nat) * (t + 1),
            floor_log2(x as nat) == fl + floor_log2(t as nat),
        decreases t,
    {
        proof {
            lemma2_to64();
            lemma2_to64_rest();
            let p = pow2(fl as nat) as int;
            let t2 = (t / 2) as int;
            lemma_pow2_adds(fl as nat, 1);
            assert(pow2((fl + 1) as nat) == p * 2) by {
                assert(pow2(1) == 2);
            }
            assert(2 * t2 <= (t as int) && (t as int) < 2 * t2 + 2);
            assert((p * 2) * t2 <= p * (t as int) && p * ((t as int) + 1) <= (p * 2) * (t2
                + 1)) by (nonlinear_arith)
                requires
                    p >= 1,
                    2 * t2 <= (t as int) && (t as int) < 2 * t2 + 2,
            ;
            if fl + 1 > 63 {
                assert(fl == 63);
                assert(pow2(63) * (t as int) >= pow2(63) * 2) by (nonlinear_arith)
                    requires
                        t >= 2,
                        pow2(63) >= 0,
                ;
                assert(false);
            }
        }
        t = t / 2;
        fl = fl + 1;
    }
    proof {
        assert(floor_log2(x as nat) == fl);
        assert(pow2(fl as nat) * 1 == pow2(fl as nat));
        assert(pow2(fl as nat) * 2 == pow2((fl + 1) as nat)) by {
            lemma_pow2_adds(fl as nat, 1);
            assert(pow2(1) == 2);
        }
        assert(pow2(fl as nat) <= x as nat);
        assert((x as nat) < pow2((fl + 1) as nat));
    }
    // Scale the mantissa into [2^63, 2^64).
    let mut m: u64 = x;
    let mut sh: u32 = 63 - fl;
    proof {
        assert(m == x as nat * pow2(0));
    }
    while sh > 0
        invariant
            fl <= 63,
            sh <= 63 - fl,
            m == x as nat * pow2((63 - fl - sh) as nat),
            pow2(fl as nat) <= x as nat,
            (x as nat) < pow2((fl + 1) as nat),
            m < pow2((64 - sh) as nat),
        decreases sh,
    {
        proof {
            lemma2_to64();
            lemma2_to64_rest();
            let e = (63 - fl - sh) as nat;
            lemma_pow2_adds(e, 1);
            lemma_pow2_adds((64 - sh) as nat, 1);
            assert(pow2(1) == 2);
            if sh >= 2 {
                lemma_pow2_adds((64 - sh) as nat, (sh - 1) as nat);
                assert(pow2((64 - sh) as nat) * pow2((sh - 1) as nat) == pow2(63));
                assert(pow2((64 - sh) as nat) <= pow2(63)) by (nonlinear_arith)
                    requires
                        pow2((64 - sh) as nat) * pow2((sh - 1) as nat) == pow2(63),
                        pow2((sh - 1) as nat) >= 1,
                        pow2((64 - sh) as nat) >= 1,
                ;
            }
            assert(x as nat * (pow2(e) * 2) == (x as nat * pow2(e)) * 2) by (nonlinear_arith);
        }
        m = m * 2;
        sh = sh - 1;
    }
    proof {
        assert(m == x as nat * pow2((63 - fl) as nat));
        assert(m >= pow2(63)) by {
            lemma_pow2_adds(fl as nat, (63 - fl) as nat);
            assert(pow2(fl as nat) * pow2((63 - fl) as nat) <= x as nat * pow2(
                (63 - fl) as nat,
            )) by (nonlinear_arith)
                requires
                    pow2(fl as nat) <= x as nat,
                    pow2((63 - fl) as nat) >= 0,
            ;
        }
        lemma2_to64();
        lemma2_to64_rest();
        assert(m as nat >= 0x8000_0000_0000_0000);
    }
    // Fractional bits by repeated squaring.
    let ghost m0 = m as nat;
    let mut z: u64 = m;
    let mut acc: u64 = 0;
    let mut k: u32 = LOG_FRAC_BITS;
    while k > 0
        invariant
            k <= 16,
            z as nat >= 0x8000_0000_0000_0000,
            acc < pow2((16 - k) as nat),
            acc * pow2(k as nat) + frac_bits(z as nat, k as nat) == frac_bits(m0, 16),
        decreases k,
    {
        proof {
            lemma2_to64();
            lemma2_to64_rest();
            assert((z as nat) * (z as nat) < 0x100000000000000000000000000000000) by (
            nonlinear_arith)
                requires
                    0 <= z < 0x1_0000_0000_0000_0000,
            ;
            assert((z as nat) * (z as nat) >= 0x8000_0000_0000_0000 * 0x8000_0000_0000_0000) by (
            nonlinear_arith)
                requires
                    z as nat >= 0x8000_0000_0000_0000,
            ;
        }
        let zw: u128 = (z as u128) * (z as u128);
        proof {
            assert(zw == (z as nat) * (z as nat));
            assert((zw as nat) / 0x8000_0000_0000_0000 >= 0x8000_0000_0000_0000) by {
                lemma_div_is_ordered(
                    0x8000_0000_0000_0000int * 0x8000_0000_0000_0000,
                    zw as int,
                    0x8000_0000_0000_0000,
                );
                assert((0x8000_0000_0000_0000int * 0x8000_0000_0000_0000)
                    / 0x8000_0000_0000_0000 == 0x8000_0000_0000_0000) by (nonlinear_arith);
            }
            assert((zw as nat) / 0x8000_0000_0000_0000 < 0x2_0000_0000_0000_0000) by {
                assert(zw < 0x8000_0000_0000_0000int * 0x2_0000_0000_0000_0000) by (
                nonlinear_arith)
                    requires
                        zw < 0x100000000000000000000000000000000,
                ;
                lemma_multiply_divide_lt(zw as int, 0x8000_0000_0000_0000, 0x2_0000_0000_0000_0000);
            }
        }
        let zz: u128 = zw / 0x8000_0000_0000_0000u128;
        let ghost prev_acc = acc as nat;
        let ghost prev_z = z as nat;
        let ghost prev_k = k as nat;
        if zz >= 0x1_0000_0000_0000_0000u128 {
            proof {
                lemma_div_is_ordered(0x1_0000_0000_0000_0000, zz as int, 2);
            }
            acc = acc * 2 + 1;
            z = (zz / 2) as u64;
        } else {
            acc = acc * 2;
            z = zz as u64;
        }
        k = k - 1;
        proof {
            lemma2_to64();
            let zn = (prev_z * prev_z) / 0x8000_0000_0000_0000;
            assert(zn == zz as nat);
            lemma_pow2_adds(k as nat, 1);
            assert(pow2(1) == 2);
            assert(pow2(prev_k) == pow2(k as nat) * 2);
            if zz >= 0x1_0000_0000_0000_0000u128 {
                assert(frac_bits(prev_z, prev_k) == pow2(k as nat) + frac_bits(zn / 2, k as nat));
                assert((prev_acc * 2 + 1) * pow2(k as nat) + frac_bits(zn / 2, k as nat) == prev_acc
                    * (pow2(k as nat) * 2) + (pow2(k as nat) + frac_bits(zn / 2, k as nat))) by (
                nonlinear_arith);
            } else {
                assert(frac_bits(prev_z, prev_k) == frac_bits(zn, k as nat));
                assert((prev_acc * 2) * pow2(k as nat) == prev_acc * (pow2(k as nat) * 2)) by (
                nonlinear_arith);
            }
            lemma_pow2_adds((16 - prev_k) as nat, 1);
            assert(pow2((16 - k) as nat) == pow2((16 - prev_k) as nat) * 2);
            assert(prev_acc * 2 + 2 <= pow2((16 - prev_k) as nat) * 2) by (nonlinear_arith)
                requires
                    prev_acc < pow2((16 - prev_k) as nat),
            ;
        }
    }
    proof {
        lemma2_to64();
        assert(pow2(0) == 1);
        assert(acc * pow2(0) == acc) by (nonlinear_arith)
            requires
                pow2(0) == 1,
        ;
        assert(acc == frac_bits(m0, 16));
        assert(acc < pow2(16));
        assert(fl as nat * 0x10000 + acc < 64 * 0x10000) by (nonlinear_arith)
            requires
                fl <= 63,
                acc < 0x10000,
        ;
    }
    (fl as u64) * 0x10000 + acc
}

} // verus!
