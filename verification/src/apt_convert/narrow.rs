//! Double-precision numbers as single-precision ones, by their bit patterns.
use crate::apt::types::F32Bits;
use vstd::arithmetic::power2::{lemma_pow2_adds, lemma_pow2_pos, lemma2_to64, pow2};
use vstd::prelude::*;

verus! {

/// `m / d` to the nearest integer, halves to the even one.
pub open spec fn nearest(m: nat, d: nat) -> nat {
    let q = m / d;
    let r = m % d;
    if 2 * r > d || (2 * r == d && q % 2 == 1) {
        q + 1
    } else {
        q
    }
}

/// The sign bit of a double, in the place that it has in a single.
pub open spec fn sign(bits: u64) -> nat {
    (bits / 0x8000_0000_0000_0000) as nat * 0x8000_0000
}

/// The exponent field of a double.
pub open spec fn exponent(bits: u64) -> nat {
    ((bits / 0x10_0000_0000_0000) % 0x800) as nat
}

/// The fraction field of a double.
pub open spec fn fraction(bits: u64) -> nat {
    (bits % 0x10_0000_0000_0000) as nat
}

/// The size of the single that is nearest to the double: infinity where no finite
/// one is near, a quiet NaN for a NaN.
pub open spec fn narrowed_size(bits: u64) -> nat {
    let e = exponent(bits);
    let f = fraction(bits);
    let m = 0x10_0000_0000_0000 + f;
    if e == 0x7FF && f != 0 {
        // The high bits of the fraction stay, the highest is set.
        0x7FC0_0000 + (f / 0x2000_0000) % 0x40_0000
    } else if e >= 1151 {
        // At least 2 to the 128.
        0x7F80_0000
    } else if e >= 897 {
        // Normal in both; rounding up may carry into the exponent.
        ((e - 897) * 0x80_0000 + nearest(m, 0x2000_0000)) as nat
    } else if e >= 873 {
        // Normal in double, subnormal in single.
        nearest(m, pow2((926 - e) as nat))
    } else {
        // Below half of the smallest single.
        0
    }
}

/// The bit pattern of the single that is nearest to a double.
pub open spec fn narrowed(bits: u64) -> nat {
    sign(bits) + narrowed_size(bits)
}

fn round(m: u64, d: u64) -> (q: u64)
    requires
        0 < d <= 0x40_0000_0000_0000,
    ensures
        q == nearest(m as nat, d as nat),
        q <= m / d + 1,
{
    let q: u64 = m / d;
    let r: u64 = m % d;
    if 2 * r > d || (2 * r == d && q % 2 == 1) {
        assert(q < u64::MAX) by {
            if d == 1 {
            } else {
                assert(q <= m / 2) by (nonlinear_arith)
                    requires
                        d >= 2,
                        q == m / d,
                ;
            }
        }
        q + 1
    } else {
        q
    }
}

/// Two to the power `n`.
fn power(n: u32) -> (p: u64)
    requires
        n <= 54,
    ensures
        p == pow2(n as nat),
        0 < p <= 0x40_0000_0000_0000,
{
    let mut p: u64 = 1;
    let mut i: u32 = 0;
    proof {
        lemma2_to64();
        lemma_pow2_adds(32, 22);
    }
    while i < n
        invariant
            i <= n <= 54,
            p == pow2(i as nat),
            pow2(54) == 0x40_0000_0000_0000,
            p <= 0x40_0000_0000_0000,
        decreases n - i,
    {
        proof {
            lemma2_to64();
            lemma_pow2_adds(i as nat, 1);
            lemma_pow2_adds((i + 1) as nat, (53 - i) as nat);
            lemma_pow2_pos((53 - i) as nat);
            let a = pow2((i + 1) as nat);
            let b = pow2((53 - i) as nat);
            assert(a <= a * b) by (nonlinear_arith)
                requires
                    b >= 1,
            ;
        }
        p = 2 * p;
        i = i + 1;
    }
    proof {
        lemma_pow2_pos(n as nat);
    }
    p
}

/// The bit pattern of the single that is nearest to a double.
pub fn narrow(bits: u64) -> (r: F32Bits)
    ensures
        r == narrowed(bits),
{
    let s: u64 = (bits / 0x8000_0000_0000_0000) * 0x8000_0000;
    let e: u64 = (bits / 0x10_0000_0000_0000) % 0x800;
    let f: u64 = bits % 0x10_0000_0000_0000;
    let m: u64 = 0x10_0000_0000_0000 + f;
    assert(bits / 0x8000_0000_0000_0000 <= 1);
    let size: u64 = if e == 0x7FF && f != 0 {
        0x7FC0_0000 + (f / 0x2000_0000) % 0x40_0000
    } else if e >= 1151 {
        0x7F80_0000
    } else if e >= 897 {
        (e - 897) * 0x80_0000 + round(m, 0x2000_0000)
    } else if e >= 873 {
        let p: u64 = power((926 - e) as u32);
        proof {
            lemma2_to64();
            let k = (926 - e) as nat;
            lemma_pow2_adds(30, (k - 30) as nat);
            lemma_pow2_pos((k - 30) as nat);
            assert(p >= 0x4000_0000) by (nonlinear_arith)
                requires
                    p == 0x4000_0000 * pow2((k - 30) as nat),
                    pow2((k - 30) as nat) >= 1,
            ;
            assert(m / p <= m / 0x4000_0000) by (nonlinear_arith)
                requires
                    p >= 0x4000_0000,
                    m >= 0,
            ;
        }
        round(m, p)
    } else {
        0
    };
    (s + size) as u32
}

} // verus!
