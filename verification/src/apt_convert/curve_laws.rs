//! How close the straight pieces of a curve are to it.
use super::geometry::{
    curve, flat, flattened, middle, nearest, spot, through, Point, Segment, Spot,
};
use vstd::arithmetic::mul::{lemma_mul_is_associative, lemma_mul_is_distributive_add_other_way};
use vstd::arithmetic::power2::{lemma2_to64, lemma_pow2_adds, lemma_pow2_pos, pow2};
use vstd::prelude::*;

verus! {

/// Whether `s` is where the curve from `a` by `b` to `c` is at `i / n`.
pub open spec fn on(a: int, b: int, c: int, n: int, i: int, s: int) -> bool {
    n * n * s == (n - i) * (n - i) * a + 2 * (i * (n - i)) * b + i * i * c
}

/// Whether a spot is where a curve is at `i / n`.
#[verifier::opaque]
pub open spec fn on_curve(a: Spot, b: Spot, c: Spot, n: int, i: int, s: Spot) -> bool {
    on(a.x, b.x, c.x, n, i, s.x) && on(a.y, b.y, c.y, n, i, s.y)
}

/// Whether the piece of a curve that is `step / n` of it leaves its chord by at most four
/// twips: its second difference, `step / n` squared times that of the whole, is at most
/// sixteen twips long. A twip is 0x10_0000 units.
#[verifier::opaque]
pub open spec fn straight(a: Spot, b: Spot, c: Spot, n: int, step: int) -> bool {
    let x = step * step * (a.x - 2 * b.x + c.x);
    let y = step * step * (a.y - 2 * b.y + c.y);
    let r = n * n * 0x100_0000;
    x * x + y * y <= r * r
}

/// Where the piece before the `k`-th fraction starts.
pub open spec fn before(t: Seq<int>, k: int) -> int {
    if k > 0 {
        t[k - 1]
    } else {
        0
    }
}

/// Whether the `k`-th spot is where a curve is at the `k`-th fraction of it, with a piece
/// before it that is as good as straight unless it is the smallest there is.
pub open spec fn piece(
    v: Seq<Spot>,
    t: Seq<int>,
    a: Spot,
    b: Spot,
    c: Spot,
    n: int,
    k: int,
) -> bool {
    let step = t[k] - before(t, k);
    &&& 0 <= before(t, k) < t[k] <= n
    &&& on_curve(a, b, c, n, t[k], v[k])
    &&& step == 1 || straight(a, b, c, n, step)
}

/// Whether spots are where a curve is at growing fractions `t / n` of it, the last being
/// its end.
pub open spec fn follows(
    v: Seq<Spot>,
    t: Seq<int>,
    a: Spot,
    b: Spot,
    c: Spot,
    n: int,
) -> bool {
    &&& v.len() == t.len()
    &&& v.len() > 0
    &&& t[t.len() - 1] == n
    &&& forall|k: int| 0 <= k < t.len() ==> #[trigger] piece(v, t, a, b, c, n, k)
}

proof fn lemma_squares(n: int, i: int)
    ensures
        (n - i) * (n - i) == n * n - 2 * (n * i) + i * i,
        i * (n - i) == n * i - i * i,
        (n + i) * (n + i) == n * n + 2 * (n * i) + i * i,
        (n + i) * (n - i) == n * n - i * i,
        (2 * n - i) * (2 * n - i) == 4 * (n * n) - 4 * (n * i) + i * i,
        i * (2 * n - i) == 2 * (n * i) - i * i,
        (2 * n) * (2 * n) == 4 * (n * n),
{
    assert((n - i) * (n - i) == n * n - 2 * (n * i) + i * i) by (nonlinear_arith);
    assert(i * (n - i) == n * i - i * i) by (nonlinear_arith);
    assert((n + i) * (n + i) == n * n + 2 * (n * i) + i * i) by (nonlinear_arith);
    assert((n + i) * (n - i) == n * n - i * i) by (nonlinear_arith);
    assert((2 * n - i) * (2 * n - i) == 4 * (n * n) - 4 * (n * i) + i * i) by (nonlinear_arith);
    assert(i * (2 * n - i) == 2 * (n * i) - i * i) by (nonlinear_arith);
    assert((2 * n) * (2 * n) == 4 * (n * n)) by (nonlinear_arith);
}

/// Three products with one factor.
proof fn lemma_spread(x: int, y: int, z: int, p: int, q: int, r: int, a: int)
    ensures
        (x * p + y * q + z * r) * a == x * (p * a) + y * (q * a) + z * (r * a),
{
    lemma_mul_is_distributive_add_other_way(a, x * p + y * q, z * r);
    lemma_mul_is_distributive_add_other_way(a, x * p, y * q);
    lemma_mul_is_associative(x, p, a);
    lemma_mul_is_associative(y, q, a);
    lemma_mul_is_associative(z, r, a);
}

/// A point of the first half of a curve is one of the whole.
proof fn lemma_first(a: int, ab: int, m: int, n: int, i: int, s: int)
    requires
        on(a, ab, m, n, i, s),
    ensures
        on(a, 2 * ab - a, 4 * m + a - 4 * ab, 2 * n, i, s),
{
    let (nn, ni, ii): (int, int, int) = (n * n, n * i, i * i);
    lemma_squares(n, i);
    lemma_spread(4, -4, 1, nn, ni, ii, a);
    lemma_spread(1, -2, 1, nn, ni, ii, a);
    lemma_spread(0, 4, -2, nn, ni, ii, a);
    lemma_spread(0, 2, -2, nn, ni, ii, ab);
    lemma_spread(0, 8, -4, nn, ni, ii, ab);
    let k = 4 * ni - 2 * ii;
    assert(k * (2 * ab - a) == 2 * (k * ab) - k * a) by (nonlinear_arith);
    lemma_spread(0, 4, -2, nn, ni, ii, ab);
    assert(ii * (4 * m + a - 4 * ab) == 4 * (ii * m) + ii * a - 4 * (ii * ab)) by (nonlinear_arith);
    lemma_spread(4, 0, 0, nn, ni, ii, s);
}

/// A point of the second half of a curve is one of the whole.
proof fn lemma_second(c: int, bc: int, m: int, n: int, i: int, s: int)
    requires
        on(m, bc, c, n, i, s),
    ensures
        on(4 * m + c - 4 * bc, 2 * bc - c, c, 2 * n, i + n, s),
{
    let (nn, ni, ii): (int, int, int) = (n * n, n * i, i * i);
    lemma_squares(n, i);
    let k = nn - 2 * ni + ii;
    let l = 2 * nn - 2 * ii;
    assert(2 * n - (i + n) == n - i);
    assert(k * (4 * m + c - 4 * bc) == 4 * (k * m) + k * c - 4 * (k * bc)) by (nonlinear_arith);
    assert(l * (2 * bc - c) == 2 * (l * bc) - l * c) by (nonlinear_arith);
    lemma_spread(1, -2, 1, nn, ni, ii, m);
    lemma_spread(1, -2, 1, nn, ni, ii, c);
    lemma_spread(1, -2, 1, nn, ni, ii, bc);
    lemma_spread(2, 0, -2, nn, ni, ii, bc);
    lemma_spread(2, 0, -2, nn, ni, ii, c);
    lemma_spread(1, 2, 1, nn, ni, ii, c);
    lemma_spread(0, 2, -2, nn, ni, ii, bc);
    lemma_spread(4, 0, 0, nn, ni, ii, s);
}

/// A piece of a half that is straight is a straight piece of the whole.
proof fn lemma_straight(x: int, y: int, n: int, r: int, s: int)
    requires
        ({
            let u = s * s * x;
            let v = s * s * y;
            let w = n * n * r;
            u * u + v * v <= w * w
        }),
    ensures
        ({
            let u = s * s * (4 * x);
            let v = s * s * (4 * y);
            let w = (2 * n) * (2 * n) * r;
            u * u + v * v <= w * w
        }),
{
    let u = s * s * x;
    let v = s * s * y;
    let w = n * n * r;
    assert(s * s * (4 * x) == 4 * u) by (nonlinear_arith)
        requires
            u == s * s * x,
    ;
    assert(s * s * (4 * y) == 4 * v) by (nonlinear_arith)
        requires
            v == s * s * y,
    ;
    assert((2 * n) * (2 * n) * r == 4 * w) by (nonlinear_arith)
        requires
            w == n * n * r,
    ;
    assert((4 * u) * (4 * u) == 16 * (u * u)) by (nonlinear_arith);
    assert((4 * v) * (4 * v) == 16 * (v * v)) by (nonlinear_arith);
    assert((4 * w) * (4 * w) == 16 * (w * w)) by (nonlinear_arith);
}

/// A curve that is flat is straight as a whole.
proof fn lemma_whole(a: Spot, b: Spot, c: Spot, n: int)
    requires
        flat(a, b, c),
    ensures
        straight(a, b, c, n, n),
{
    let x = a.x - 2 * b.x + c.x;
    let y = a.y - 2 * b.y + c.y;
    let f: int = 0x100_0000;
    let q = n * n;
    reveal(straight);
    assert((q * x) * (q * x) + (q * y) * (q * y) == (q * q) * (x * x + y * y)) by (nonlinear_arith);
    assert((q * f) * (q * f) == (q * q) * (f * f)) by (nonlinear_arith);
    assert((q * q) * (x * x + y * y) <= (q * q) * (f * f)) by (nonlinear_arith)
        requires
            x * x + y * y <= f * f,
    ;
}

/// Whether a number can be halved twice, `left` times over.
#[verifier::opaque]
spec fn fine(v: int, left: nat) -> bool {
    v % (pow2(2 * left) as int) == 0
}

spec fn fine_spot(s: Spot, left: nat) -> bool {
    fine(s.x, left) && fine(s.y, left)
}

/// Halves are exact.
proof fn lemma_halves(a: int, b: int, c: int, left: nat)
    requires
        left > 0,
        fine(a, left),
        fine(b, left),
        fine(c, left),
    ensures
        ({
            let ab = (a + b) / 2;
            let bc = (b + c) / 2;
            let m = (ab + bc) / 2;
            let l = (left - 1) as nat;
            &&& b == 2 * ab - a
            &&& b == 2 * bc - c
            &&& c == 4 * m + a - 4 * ab
            &&& a == 4 * m + c - 4 * bc
            &&& fine(a, l) && fine(ab, l) && fine(m, l) && fine(bc, l) && fine(c, l)
        }),
{
    reveal(fine);
    let l = (left - 1) as nat;
    let p = pow2(2 * l) as int;
    lemma2_to64();
    lemma_pow2_pos(2 * l);
    lemma_pow2_adds(2 * l, 2);
    assert(pow2(2 * left) == 4 * p);
    let (i, j, k): (int, int, int) = (a / (4 * p), b / (4 * p), c / (4 * p));
    assert(a == 4 * p * i && b == 4 * p * j && c == 4 * p * k) by (nonlinear_arith)
        requires
            p > 0,
            a % (4 * p) == 0,
            b % (4 * p) == 0,
            c % (4 * p) == 0,
            i == a / (4 * p),
            j == b / (4 * p),
            k == c / (4 * p),
    ;
    let ab = (a + b) / 2;
    let bc = (b + c) / 2;
    let m = (ab + bc) / 2;
    let (pi, pj, pk): (int, int, int) = (p * i, p * j, p * k);
    assert(a == 4 * pi && b == 4 * pj && c == 4 * pk) by (nonlinear_arith)
        requires
            a == 4 * p * i,
            b == 4 * p * j,
            c == 4 * p * k,
            pi == p * i,
            pj == p * j,
            pk == p * k,
    ;
    assert(ab == 2 * pi + 2 * pj);
    assert(bc == 2 * pj + 2 * pk);
    assert(m == pi + 2 * pj + pk);
    assert(p * (4 * i) == 4 * pi && p * (4 * k) == 4 * pk) by (nonlinear_arith)
        requires
            pi == p * i,
            pk == p * k,
    ;
    assert(p * (2 * i + 2 * j) == 2 * pi + 2 * pj && p * (2 * j + 2 * k) == 2 * pj + 2 * pk)
        by (nonlinear_arith)
        requires
            pi == p * i,
            pj == p * j,
            pk == p * k,
    ;
    assert(p * (i + 2 * j + k) == pi + 2 * pj + pk) by (nonlinear_arith)
        requires
            pi == p * i,
            pj == p * j,
            pk == p * k,
    ;
    lemma_multiple(a, p, 4 * i);
    lemma_multiple(c, p, 4 * k);
    lemma_multiple(ab, p, 2 * i + 2 * j);
    lemma_multiple(bc, p, 2 * j + 2 * k);
    lemma_multiple(m, p, i + 2 * j + k);
}

proof fn lemma_multiple(v: int, p: int, q: int)
    requires
        p > 0,
        v == p * q,
    ensures
        v % p == 0,
{
    vstd::arithmetic::div_mod::lemma_mod_multiples_basic(q, p);
    assert(p * q == q * p) by (nonlinear_arith);
}

/// The end of a curve is on it.
proof fn lemma_end(a: int, b: int, c: int, n: int)
    ensures
        on(a, b, c, n, n, c),
{
    assert((n - n) * (n - n) * a == 0) by (nonlinear_arith);
    assert(2 * (n * (n - n)) * b == 0) by (nonlinear_arith);
}

/// A point and a piece of a half are those of the whole.
proof fn lemma_half(
    a: Spot,
    b: Spot,
    c: Spot,
    left: nat,
    n: int,
    i: int,
    step: int,
    s: Spot,
    second: bool,
)
    requires
        left > 0,
        fine_spot(a, left),
        fine_spot(b, left),
        fine_spot(c, left),
        ({
            let ab = middle(a, b);
            let bc = middle(b, c);
            let m = middle(ab, bc);
            &&& !second ==> on_curve(a, ab, m, n, i, s) && (step == 1 || straight(
                a,
                ab,
                m,
                n,
                step,
            ))
            &&& second ==> on_curve(m, bc, c, n, i, s) && (step == 1 || straight(
                m,
                bc,
                c,
                n,
                step,
            ))
        }),
    ensures
        on_curve(
            a,
            b,
            c,
            2 * n,
            if second {
                i + n
            } else {
                i
            },
            s,
        ),
        step == 1 || straight(a, b, c, 2 * n, step),
{
    reveal(on_curve);
    let ab = middle(a, b);
    let bc = middle(b, c);
    let m = middle(ab, bc);
    lemma_halves(a.x, b.x, c.x, left);
    lemma_halves(a.y, b.y, c.y, left);
    if second {
        lemma_second(c.x, bc.x, m.x, n, i, s.x);
        lemma_second(c.y, bc.y, m.y, n, i, s.y);
    } else {
        lemma_first(a.x, ab.x, m.x, n, i, s.x);
        lemma_first(a.y, ab.y, m.y, n, i, s.y);
    }
    if step != 1 {
        let dx = a.x - 2 * ab.x + m.x;
        let dy = a.y - 2 * ab.y + m.y;
        assert(4 * dx == a.x - 2 * b.x + c.x);
        assert(4 * dy == a.y - 2 * b.y + c.y);
        assert(m.x - 2 * bc.x + c.x == dx);
        assert(m.y - 2 * bc.y + c.y == dy);
        reveal(straight);
        lemma_straight(dx, dy, n, 0x100_0000, step);
    }
}

/// The pieces of both halves, one behind the other.
proof fn lemma_pieces(
    a: Spot,
    b: Spot,
    c: Spot,
    left: nat,
    v: Seq<Spot>,
    t: Seq<int>,
    w: Seq<Spot>,
    u: Seq<int>,
    n: int,
)
    requires
        left > 0,
        n >= 1,
        fine_spot(a, left),
        fine_spot(b, left),
        fine_spot(c, left),
        ({
            let ab = middle(a, b);
            let bc = middle(b, c);
            let m = middle(ab, bc);
            &&& follows(v, t, a, ab, m, n)
            &&& follows(w, u, m, bc, c, n)
        }),
    ensures
        follows(
            v + w,
            t + Seq::new(u.len(), |k: int| u[k] + n),
            a,
            b,
            c,
            2 * n,
        ),
{
    let ab = middle(a, b);
    let bc = middle(b, c);
    let m = middle(ab, bc);
    let z = Seq::new(u.len(), |k: int| u[k] + n);
    let r = t + z;
    let s = v + w;
    assert forall|k: int| 0 <= k < r.len() implies #[trigger] piece(s, r, a, b, c, 2 * n, k) by {
        if k < t.len() {
            assert(piece(v, t, a, ab, m, n, k));
            assert(r[k] == t[k] && s[k] == v[k]);
            assert(before(r, k) == before(t, k));
            lemma_half(a, b, c, left, n, t[k], t[k] - before(t, k), v[k], false);
        } else {
            let j = k - t.len();
            assert(piece(w, u, m, bc, c, n, j));
            assert(r[k] == u[j] + n && s[k] == w[j]);
            assert(before(r, k) == before(u, j) + n);
            lemma_half(a, b, c, left, n, u[j], u[j] - before(u, j), w[j], true);
        }
    }
    assert(r[r.len() - 1] == u[u.len() - 1] + n);
}

proof fn lemma_curve(a: Spot, b: Spot, c: Spot, left: nat) -> (t: Seq<int>)
    requires
        fine_spot(a, left),
        fine_spot(b, left),
        fine_spot(c, left),
    ensures
        follows(curve(a, b, c, left), t, a, b, c, pow2(left) as int),
    decreases left,
{
    lemma_pow2_pos(left);
    let n = pow2(left) as int;
    if left == 0 || flat(a, b, c) {
        reveal(on_curve);
        lemma_end(a.x, b.x, c.x, n);
        lemma_end(a.y, b.y, c.y, n);
        if flat(a, b, c) {
            lemma_whole(a, b, c, n);
        } else {
            assert(pow2(0) == 1) by {
                lemma2_to64();
            }
        }
        seq![n]
    } else {
        let l = (left - 1) as nat;
        let ab = middle(a, b);
        let bc = middle(b, c);
        let m = middle(ab, bc);
        lemma_halves(a.x, b.x, c.x, left);
        lemma_halves(a.y, b.y, c.y, left);
        let t = lemma_curve(a, ab, m, l);
        let u = lemma_curve(m, bc, c, l);
        assert(pow2(left) == 2 * pow2(l)) by {
            lemma2_to64();
            lemma_pow2_adds(l, 1);
        }
        lemma_pow2_pos(l);
        lemma_pieces(a, b, c, left, curve(a, ab, m, l), t, curve(m, bc, c, l), u, pow2(l) as int);
        t + Seq::new(u.len(), |k: int| u[k] + pow2(l))
    }
}

/// A curve becomes points of it, in their order and its end last, between which it leaves
/// the straight line by at most four twips, unless it would take more than a thousand
/// pieces.
pub proof fn law_curve(a: Point, b: Point, c: Point)
    ensures
        exists|t: Seq<int>| #[trigger]
            follows(curve(spot(a), spot(b), spot(c), 10), t, spot(a), spot(b), spot(c), 1024),
{
    lemma2_to64();
    lemma_unit(a.x as int);
    lemma_unit(a.y as int);
    lemma_unit(b.x as int);
    lemma_unit(b.y as int);
    lemma_unit(c.x as int);
    lemma_unit(c.y as int);
    let t = lemma_curve(spot(a), spot(b), spot(c), 10);
}

proof fn lemma_unit(v: int)
    ensures
        fine(v * 0x10_0000, 10),
{
    reveal(fine);
    lemma2_to64();
    assert(pow2(20) == 0x10_0000);
    lemma_multiple(v * 0x10_0000, 0x10_0000, v);
}

/// Spots become the nearest whole twips.
pub proof fn law_nearest(s: Spot)
    requires
        -0x8000_0000 * 0x10_0000 <= s.x <= 0x7FFF_FFFF * 0x10_0000,
        -0x8000_0000 * 0x10_0000 <= s.y <= 0x7FFF_FFFF * 0x10_0000,
    ensures
        -0x8_0000 <= nearest(s).x * 0x10_0000 - s.x <= 0x8_0000,
        -0x8_0000 <= nearest(s).y * 0x10_0000 - s.y <= 0x8_0000,
{
}

/// A flattened curve goes through the nearest whole twips of those points, in their order.
pub proof fn law_pieces(a: Point, b: Point, c: Point, k: int)
    requires
        0 <= k < curve(spot(a), spot(b), spot(c), 10).len(),
    ensures
        visits(flattened(a, b, c), a, nearest(curve(spot(a), spot(b), spot(c), 10)[k])),
{
    let v = curve(spot(a), spot(b), spot(c), 10);
    lemma_visits(a, v, v.len(), k);
    let (s, at) = through(a, v, v.len());
    let g = flattened(a, b, c);
    let p = nearest(v[k]);
    if p != a {
        let j = choose|j: int| 0 <= j < s.len() && (#[trigger] s[j]).to == p;
        assert(g[j] == s[j]);
    }
}

/// Whether segments from `a` on pass a point.
pub open spec fn visits(s: Seq<Segment>, a: Point, p: Point) -> bool {
    p == a || exists|j: int| 0 <= j < s.len() && (#[trigger] s[j]).to == p
}

proof fn lemma_visits(from: Point, v: Seq<Spot>, n: nat, k: int)
    requires
        n <= v.len(),
    ensures
        visits(through(from, v, n).0, from, through(from, v, n).1),
        0 <= k < n ==> visits(through(from, v, n).0, from, nearest(v[k])),
    decreases n,
{
    if n > 0 {
        lemma_visits(from, v, (n - 1) as nat, k);
        let (s, at) = through(from, v, (n - 1) as nat);
        let (t, to) = through(from, v, n);
        if to != at {
            assert(t[t.len() - 1].to == to);
        }
        if 0 <= k < n - 1 {
            let p = nearest(v[k]);
            if p != from {
                let j = choose|j: int| 0 <= j < s.len() && (#[trigger] s[j]).to == p;
                assert(t[j] == s[j]);
            }
        }
    }
}

} // verus!
