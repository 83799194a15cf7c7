//! Little-endian integers as byte sequences.
use vstd::prelude::*;

verus! {

/// The `n` low bytes of `v`, least significant first.
pub open spec fn le(v: nat, n: nat) -> Seq<u8>
    decreases n,
{
    if n == 0 {
        Seq::empty()
    } else {
        seq![(v % 256) as u8] + le(v / 256, (n - 1) as nat)
    }
}

/// The number that the `n` bytes of `s` from `pos` on spell, least significant first.
pub open spec fn un_le(s: Seq<u8>, pos: int, n: nat) -> nat
    decreases n,
{
    if n == 0 {
        0
    } else {
        s[pos] as nat + 256 * un_le(s, pos + 1, (n - 1) as nat)
    }
}

/// How many numbers `n` bytes can spell.
pub open spec fn capacity(n: nat) -> nat
    decreases n,
{
    if n == 0 {
        1
    } else {
        256 * capacity((n - 1) as nat)
    }
}

/// Whether a number is a power of two.
pub open spec fn power_of_two(n: int) -> bool
    decreases n,
{
    n == 1 || (n > 1 && n % 2 == 0 && power_of_two(n / 2))
}

/// The smallest multiple of `n` that is not below `pos`.
pub open spec fn round_up(pos: int, n: nat) -> int {
    pos + (n - pos % (n as int)) % (n as int)
}

pub proof fn lemma_powers()
    ensures
        power_of_two(2),
        power_of_two(4),
        power_of_two(8),
{
    reveal_with_fuel(power_of_two, 4);
}

pub proof fn lemma_capacity()
    ensures
        capacity(1) == 0x100,
        capacity(2) == 0x1_0000,
        capacity(4) == 0x1_0000_0000,
        capacity(8) == 0x1_0000_0000_0000_0000,
{
    reveal_with_fuel(capacity, 9);
}

pub proof fn lemma_le_len(v: nat, n: nat)
    ensures
        le(v, n).len() == n,
    decreases n,
{
    if n > 0 {
        lemma_le_len(v / 256, (n - 1) as nat);
    }
}

/// Only the low bytes matter.
pub proof fn lemma_le_wraps(v: nat, n: nat)
    ensures
        le(v % capacity(n), n) == le(v, n),
        capacity(n) > 0,
    decreases n,
{
    if n > 0 {
        let m = (n - 1) as nat;
        lemma_le_wraps(v / 256, m);
        let k = capacity(m);
        assert((v % (256 * k)) % 256 == v % 256 && (v % (256 * k)) / 256 == (v / 256) % k)
            by (nonlinear_arith)
            requires
                k > 0,
                v >= 0,
        {
            let q = v / (256 * k);
            let r = v % (256 * k);
            assert(v == q * (256 * k) + r && 0 <= r < 256 * k);
            let a = v / 256;
            let b = v % 256;
            let r1 = r / 256;
            let r0 = r % 256;
            assert(v == 256 * (q * k + r1) + r0);
            assert(a == q * k + r1 && b == r0);
            assert(0 <= r1 < k);
            assert(a % k == r1);
        }
    }
}

/// Reading back what was written.
pub proof fn lemma_un_le_of_le(s: Seq<u8>, pos: int, v: nat, n: nat)
    requires
        0 <= pos,
        pos + n <= s.len(),
        forall|i: int| 0 <= i < n ==> #[trigger] s[pos + i] == le(v, n)[i],
        v < capacity(n),
    ensures
        un_le(s, pos, n) == v,
    decreases n,
{
    if n > 0 {
        let m = (n - 1) as nat;
        lemma_le_len(v / 256, m);
        assert(s[pos + 0] == le(v, n)[0]);
        assert forall|i: int| 0 <= i < m implies #[trigger] s[pos + 1 + i] == le(v / 256, m)[i] by {
            assert(s[pos + (i + 1)] == le(v, n)[i + 1]);
            assert(le(v, n)[i + 1] == le(v / 256, m)[i]);
        }
        lemma_un_le_of_le(s, pos + 1, v / 256, m);
    }
}

/// Reading depends on the bytes read alone.
pub proof fn lemma_un_le_local(s: Seq<u8>, t: Seq<u8>, pos: int, n: nat)
    requires
        forall|i: int| pos <= i < pos + n ==> s[i] == t[i],
    ensures
        un_le(s, pos, n) == un_le(t, pos, n),
    decreases n,
{
    if n > 0 {
        lemma_un_le_local(s, t, pos + 1, (n - 1) as nat);
    }
}

pub proof fn lemma_un_le_bound(s: Seq<u8>, pos: int, n: nat)
    ensures
        un_le(s, pos, n) < capacity(n),
    decreases n,
{
    if n > 0 {
        lemma_un_le_bound(s, pos + 1, (n - 1) as nat);
    }
}

} // verus!
