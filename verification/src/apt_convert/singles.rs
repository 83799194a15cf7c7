//! Fractions as single-precision numbers, by their bit patterns.
use super::narrow::nearest;
use crate::apt::types::F32Bits;
use vstd::arithmetic::power2::{
    lemma2_to64, lemma_pow2_adds, lemma_pow2_pos, lemma_pow2_strictly_increases, pow2,
};
use vstd::prelude::*;

verus! {

/// The single nearest to `n / d` times two to the power `e`, where `n / d` is below
/// 2 to the 24: the fraction doubled until it has 24 binary digits, and rounded.
pub open spec fn grown(n: nat, d: nat, e: int) -> int
    decreases 0x100_0000 * d - n,
{
    if n == 0 || d == 0 {
        0
    } else if n < 0x80_0000 * d {
        grown(2 * n, d, e - 1)
    } else {
        (e + 149) * 0x80_0000 + nearest(n, d)
    }
}

/// The single nearest to `n / d` times two to the power `e`.
pub open spec fn shrunk(n: nat, d: nat, e: int) -> int
    decreases n - d,
{
    if d > 0 && n >= 0x100_0000 * d {
        shrunk(n, 2 * d, e + 1)
    } else {
        grown(n, d, e)
    }
}

/// The bit pattern of the single that is nearest to the fraction, halves to the
/// even one.
pub open spec fn fraction(n: nat, d: nat) -> int {
    shrunk(n, d, 0)
}

/// The bit pattern of the single nearest to `v / d`.
pub open spec fn signed_fraction(v: int, d: nat) -> int {
    if v < 0 {
        0x8000_0000 + fraction((-v) as nat, d)
    } else {
        fraction(v as nat, d)
    }
}

proof fn lemma_power_bound(k: nat, m: nat)
    requires
        pow2(k) <= pow2(m),
    ensures
        k <= m,
{
    if k > m {
        lemma_pow2_strictly_increases(m, k);
    }
}

/// The single nearest to a fraction.
pub fn from_fraction(numerator: u32, denominator: u32) -> (r: F32Bits)
    requires
        0 < denominator <= 0x1_0000,
    ensures
        r == fraction(numerator as nat, denominator as nat),
        r < 0x8000_0000,
{
    if numerator == 0 {
        proof {
            assert(shrunk(0, denominator as nat, 0) == 0);
        }
        return 0;
    }
    let mut n: u64 = numerator as u64;
    let mut d: u64 = denominator as u64;
    let mut up: u32 = 0;
    proof {
        lemma2_to64();
    }
    while n >= 0x100_0000 * d
        invariant
            0 < n <= 0xFFFF_FFFF,
            pow2(0) == 1,
            pow2(17) == 0x2_0000,
            pow2(up as nat) <= d <= 0x1_0000,
            up <= 17,
            shrunk(n as nat, d as nat, up as int) == fraction(
                numerator as nat,
                denominator as nat,
            ),
        decreases 0x1_0000 - d,
    {
        proof {
            lemma2_to64();
            lemma_pow2_adds(up as nat, 1);
            lemma_power_bound((up + 1) as nat, 17);
        }
        d = 2 * d;
        up = up + 1;
    }
    let mut down: u32 = 0;
    proof {
        lemma2_to64();
    }
    while n < 0x80_0000 * d
        invariant
            0 < n,
            0 < d <= 0x1_0000,
            n < 0x100_0000 * d,
            up <= 17,
            pow2(0) == 1,
            pow2(down as nat) <= n,
            down <= 64,
            grown(n as nat, d as nat, up - down) == fraction(
                numerator as nat,
                denominator as nat,
            ),
        decreases 0x100_0000 * d - n,
    {
        proof {
            lemma2_to64();
            lemma_pow2_adds(down as nat, 1);
            lemma_power_bound((down + 1) as nat, 64);
        }
        n = 2 * n;
        down = down + 1;
    }
    let q: u64 = n / d;
    let r: u64 = n % d;
    proof {
        assert(0x80_0000 <= q < 0x100_0000) by (nonlinear_arith)
            requires
                0x80_0000 * d <= n < 0x100_0000 * d,
                q == n / d,
                d > 0,
        ;
    }
    let m: u64 = if 2 * r > d || (2 * r == d && q % 2 == 1) {
        q + 1
    } else {
        q
    };
    let e: u64 = (149 + up - down) as u64;
    (e * 0x80_0000 + m) as u32
}

/// The single nearest to a signed fraction.
pub fn from_signed(value: i32, denominator: u32) -> (r: F32Bits)
    requires
        0 < denominator <= 0x1_0000,
    ensures
        r == signed_fraction(value as int, denominator as nat),
{
    if value < 0 {
        0x8000_0000 + from_fraction((-(value as i64)) as u32, denominator)
    } else {
        from_fraction(value as u32, denominator)
    }
}

} // verus!
