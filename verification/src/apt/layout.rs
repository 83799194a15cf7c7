//! How a blob is laid out while it is written.
//!
//! An [`Image`] is a blob under construction. Some of its bytes belong to
//! slots: places reserved for a number that becomes known later. A slot is
//! filled at most once, and nothing else ever changes a byte, so what was
//! appended can be read back from every later state. An [`Out`] adds what is
//! gathered on the way: the constants and the out-of-line data.
use super::bytes::{self, capacity, le, round_up, un_le};
use vstd::prelude::*;

verus! {

/// A place of `width` bytes reserved for a number. The tag tells whose slot it
/// is: `(0, 0)`, or the list and the place in it of the out-of-line data that
/// the slot will point to.
pub struct Slot {
    pub width: nat,
    pub value: Option<nat>,
    pub tag: (nat, nat),
}

/// A blob under construction.
#[verifier::ext_equal]
pub struct Image {
    /// Size of a pointer in bytes.
    pub ps: nat,
    pub bytes: Seq<u8>,
    /// Per byte, the start of the slot it belongs to, or -1.
    pub owner: Seq<int>,
    /// The slots by their start.
    pub slots: Map<int, Slot>,
}

/// `b` with `x` written over it at `p`.
pub open spec fn overwrite(b: Seq<u8>, p: int, x: Seq<u8>) -> Seq<u8> {
    Seq::new(
        b.len(),
        |i: int|
            if p <= i < p + x.len() {
                x[i - p]
            } else {
                b[i]
            },
    )
}

impl Image {
    /// A blob with nothing in it.
    pub open spec fn empty(ps: nat) -> Image {
        Image { ps, bytes: Seq::empty(), owner: Seq::empty(), slots: Map::empty() }
    }

    pub open spec fn len(self) -> nat {
        self.bytes.len()
    }

    /// Plain bytes at the end.
    #[verifier::opaque]
    pub open spec fn append(self, b: Seq<u8>) -> Image {
        Image {
            bytes: self.bytes + b,
            owner: self.owner + Seq::new(b.len(), |i: int| -1int),
            ..self
        }
    }

    /// A number of `n` bytes at the end.
    pub open spec fn put(self, n: nat, v: nat) -> Image {
        self.append(le(v, n))
    }

    /// Zeros up to a multiple of `n`.
    pub open spec fn align(self, n: nat) -> Image {
        self.append(Seq::new((round_up(self.len() as int, n) - self.len()) as nat, |i: int| 0u8))
    }

    /// An empty slot of `n` bytes at the end.
    #[verifier::opaque]
    pub open spec fn slot(self, n: nat, tag: (nat, nat)) -> Image {
        Image {
            bytes: self.bytes + le(0, n),
            owner: self.owner + Seq::new(n, |i: int| self.len() as int),
            slots: self.slots.insert(self.len() as int, Slot { width: n, value: None, tag }),
            ..self
        }
    }

    /// Whether an empty slot of `n` bytes with this tag starts at `p`.
    #[verifier::opaque]
    pub open spec fn holds(self, p: int, n: nat, tag: (nat, nat)) -> bool {
        self.slots.dom().contains(p) && self.slots[p] == (Slot { width: n, value: None, tag })
    }

    /// Whether a slot of `n` bytes with this tag starts at `p`, empty or filled.
    #[verifier::opaque]
    pub open spec fn keeps(self, p: int, n: nat, tag: (nat, nat)) -> bool {
        &&& self.slots.dom().contains(p)
        &&& self.slots[p].width == n
        &&& self.slots[p].tag == tag
    }

    /// `v` in the slot of `n` bytes at `p`, in place of what it held.
    #[verifier::opaque]
    pub open spec fn fill(self, p: int, n: nat, v: nat) -> Image {
        Image {
            bytes: overwrite(self.bytes, p, le(v, n)),
            slots: self.slots.insert(p, Slot { width: n, value: Some(v), tag: self.slots[p].tag }),
            ..self
        }
    }

    /// Every slot has its own bytes, and a filled one holds its number.
    #[verifier::opaque]
    pub open spec fn inv(self) -> bool {
        &&& self.ps == 4 || self.ps == 8
        &&& self.owner.len() == self.bytes.len()
        &&& forall|p: int|
            #![trigger self.slots.dom().contains(p)]
            self.slots.dom().contains(p) ==> {
                let s = self.slots[p];
                &&& 0 <= p
                &&& 0 < s.width
                &&& p + s.width <= self.len()
                &&& forall|j: int| p <= j < p + s.width ==> #[trigger] self.owner[j] == p
                &&& s.value matches Some(v) ==> forall|j: int|
                    0 <= j < s.width ==> #[trigger] self.bytes[p + j] == le(v, s.width)[j]
            }
    }

    /// `later` comes of `self` by appending, reserving and filling.
    #[verifier::opaque]
    pub open spec fn grows_to(self, later: Image) -> bool {
        &&& self.inv() && later.inv()
        &&& self.ps == later.ps
        &&& self.len() <= later.len()
        &&& forall|i: int|
            0 <= i < self.len() ==> {
                &&& #[trigger] later.owner[i] == self.owner[i]
                &&& self.owner[i] == -1 ==> later.bytes[i] == self.bytes[i]
            }
        &&& forall|p: int|
            #![trigger self.slots.dom().contains(p)]
            #![trigger later.slots.dom().contains(p)]
            self.slots.dom().contains(p) ==> {
                &&& later.slots.dom().contains(p)
                &&& later.slots[p].width == self.slots[p].width
                &&& self.slots[p].value is Some ==> later.slots[p] == self.slots[p]
            }
    }

    /// As [`Image::grows_to`], with the slots of `self` left as they were.
    #[verifier::opaque]
    pub open spec fn extends_to(self, later: Image) -> bool {
        &&& self.grows_to(later)
        &&& forall|p: int|
            #![trigger self.slots.dom().contains(p)]
            #![trigger later.slots.dom().contains(p)]
            self.slots.dom().contains(p) ==> later.slots[p] == self.slots[p]
    }
}

pub proof fn lemma_empty(ps: nat)
    requires
        ps == 4 || ps == 8,
    ensures
        Image::empty(ps).inv(),
{
    reveal(Image::inv);
}

pub proof fn lemma_refl(a: Image)
    requires
        a.inv(),
    ensures
        a.extends_to(a),
        a.grows_to(a),
{
    reveal(Image::extends_to);
    reveal(Image::grows_to);
}

pub proof fn lemma_extends(a: Image, b: Image)
    requires
        a.extends_to(b),
    ensures
        a.grows_to(b),
        a.inv(),
        b.inv(),
        a.ps == b.ps,
        a.len() <= b.len(),
        a.ps == 4 || a.ps == 8,
{
    reveal(Image::extends_to);
    reveal(Image::grows_to);
    reveal(Image::inv);
}

pub proof fn lemma_grows(a: Image, b: Image)
    requires
        a.grows_to(b),
    ensures
        a.inv(),
        b.inv(),
        a.ps == b.ps,
        a.len() <= b.len(),
        a.ps == 4 || a.ps == 8,
{
    reveal(Image::grows_to);
    reveal(Image::inv);
}

pub proof fn lemma_extends_trans(a: Image, b: Image, c: Image)
    requires
        a.extends_to(b),
        b.extends_to(c),
    ensures
        a.extends_to(c),
{
    reveal(Image::extends_to);
    lemma_grows_trans(a, b, c);
    assert forall|p: int|
        #![trigger a.slots.dom().contains(p)]
        #![trigger c.slots.dom().contains(p)]
        a.slots.dom().contains(p) implies c.slots[p] == a.slots[p] by {
        reveal(Image::grows_to);
        assert(b.slots.dom().contains(p));
    }
}

pub proof fn lemma_grows_trans(a: Image, b: Image, c: Image)
    requires
        a.grows_to(b),
        b.grows_to(c),
    ensures
        a.grows_to(c),
{
    reveal(Image::grows_to);
    assert forall|i: int| 0 <= i < a.len() implies {
        &&& #[trigger] c.owner[i] == a.owner[i]
        &&& a.owner[i] == -1 ==> c.bytes[i] == a.bytes[i]
    } by {
        assert(b.owner[i] == a.owner[i]);
        assert(c.owner[i] == b.owner[i]);
    }
    assert forall|p: int|
        #![trigger a.slots.dom().contains(p)]
        #![trigger c.slots.dom().contains(p)]
        a.slots.dom().contains(p) implies {
        &&& c.slots.dom().contains(p)
        &&& c.slots[p].width == a.slots[p].width
        &&& a.slots[p].value is Some ==> c.slots[p] == a.slots[p]
    } by {
        assert(b.slots.dom().contains(p));
    }
}

pub proof fn lemma_append(a: Image, b: Seq<u8>)
    requires
        a.inv(),
    ensures
        a.extends_to(a.append(b)),
        a.append(b).len() == a.len() + b.len(),
{
    reveal(Image::append);
    reveal(Image::inv);
    reveal(Image::grows_to);
    reveal(Image::extends_to);
    let c = a.append(b);
    assert(c.inv()) by {
        assert forall|p: int| #![trigger c.slots.dom().contains(p)] c.slots.dom().contains(p) implies {
            let s = c.slots[p];
            &&& 0 <= p
            &&& 0 < s.width
            &&& p + s.width <= c.len()
            &&& forall|j: int| p <= j < p + s.width ==> #[trigger] c.owner[j] == p
            &&& s.value matches Some(v) ==> forall|j: int|
                0 <= j < s.width ==> #[trigger] c.bytes[p + j] == le(v, s.width)[j]
        } by {
            assert(a.slots.dom().contains(p));
            let s = a.slots[p];
            if s.value is Some {
                assert forall|j: int| 0 <= j < s.width implies #[trigger] c.bytes[p + j] == le(
                    s.value->0,
                    s.width,
                )[j] by {
                    assert(a.bytes[p + j] == le(s.value->0, s.width)[j]);
                }
            }
            assert forall|j: int| p <= j < p + s.width implies #[trigger] c.owner[j] == p by {
                assert(a.owner[j] == p);
            }
        }
    }
}

/// Appended bytes are found in every later blob.
pub proof fn lemma_append_read(a: Image, b: Seq<u8>, fin: Image)
    requires
        a.inv(),
        a.append(b).grows_to(fin),
    ensures
        a.len() + b.len() <= fin.len(),
        forall|i: int| 0 <= i < b.len() ==> #[trigger] fin.bytes[a.len() + i] == b[i],
{
    reveal(Image::append);
    reveal(Image::grows_to);
    reveal(Image::inv);
    let c = a.append(b);
    assert forall|i: int| 0 <= i < b.len() implies #[trigger] fin.bytes[a.len() + i] == b[i] by {
        let k = a.len() + i;
        assert(fin.owner[k] == c.owner[k]);
    }
}

pub proof fn lemma_put(a: Image, n: nat, v: nat)
    requires
        a.inv(),
    ensures
        a.extends_to(a.put(n, v)),
        a.put(n, v).len() == a.len() + n,
{
    bytes::lemma_le_len(v, n);
    lemma_append(a, le(v, n));
}

/// An appended number is read back from every later blob.
pub proof fn lemma_put_read(a: Image, n: nat, v: nat, fin: Image)
    requires
        a.inv(),
        v < capacity(n),
        a.put(n, v).grows_to(fin),
    ensures
        a.len() + n <= fin.len(),
        un_le(fin.bytes, a.len() as int, n) == v,
{
    bytes::lemma_le_len(v, n);
    lemma_append_read(a, le(v, n), fin);
    bytes::lemma_un_le_of_le(fin.bytes, a.len() as int, v, n);
}

pub proof fn lemma_round_up(pos: int, n: nat)
    requires
        n == 1 || n == 2 || n == 4 || n == 8,
        0 <= pos,
    ensures
        pos <= round_up(pos, n) < pos + n,
        round_up(pos, n) % (n as int) == 0,
        round_up(round_up(pos, n), n) == round_up(pos, n),
        pos % (n as int) == 0 ==> round_up(pos, n) == pos,
{
}

/// As [`lemma_round_up`], for any size.
pub proof fn lemma_round_up_to(pos: int, n: nat)
    requires
        n > 0,
        0 <= pos,
    ensures
        pos <= round_up(pos, n) < pos + n,
        round_up(pos, n) % (n as int) == 0,
        round_up(round_up(pos, n), n) == round_up(pos, n),
        pos % (n as int) == 0 ==> round_up(pos, n) == pos,
        round_up(pos, n) == pos + if pos % (n as int) == 0 {
            0
        } else {
            n - pos % (n as int)
        },
{
    let m = n as int;
    let r = pos % m;
    let gap = (m - r) % m;
    assert(gap == if r == 0 { 0 } else { m - r }) by {
        if r == 0 {
            vstd::arithmetic::div_mod::lemma_mod_self_0(m);
        } else {
            vstd::arithmetic::div_mod::lemma_small_mod((m - r) as nat, n);
        }
    }
    assert((pos + gap) % m == 0) by {
        vstd::arithmetic::div_mod::lemma_fundamental_div_mod(pos, m);
        if r != 0 {
            vstd::arithmetic::div_mod::lemma_mod_multiples_basic(pos / m + 1, m);
            assert(pos + gap == (pos / m + 1) * m) by (nonlinear_arith)
                requires
                    pos == m * (pos / m) + r,
                    gap == m - r,
            ;
        }
    }
    vstd::arithmetic::div_mod::lemma_mod_self_0(m);
}

pub proof fn lemma_align(a: Image, n: nat)
    requires
        a.inv(),
        n > 0,
    ensures
        a.extends_to(a.align(n)),
        a.align(n).len() == round_up(a.len() as int, n),
{
    lemma_round_up_to(a.len() as int, n);
    lemma_append(a, Seq::new((round_up(a.len() as int, n) - a.len()) as nat, |i: int| 0u8));
}

pub proof fn lemma_slot(a: Image, n: nat, tag: (nat, nat))
    requires
        a.inv(),
        n > 0,
    ensures
        a.extends_to(a.slot(n, tag)),
        a.slot(n, tag).len() == a.len() + n,
        a.slot(n, tag).holds(a.len() as int, n, tag),
{
    reveal(Image::slot);
    reveal(Image::holds);
    reveal(Image::inv);
    reveal(Image::grows_to);
    reveal(Image::extends_to);
    bytes::lemma_le_len(0, n);
    let c = a.slot(n, tag);
    assert(!a.slots.dom().contains(a.len() as int));
    assert(c.inv()) by {
        assert forall|p: int| #![trigger c.slots.dom().contains(p)] c.slots.dom().contains(p) implies {
            let s = c.slots[p];
            &&& 0 <= p
            &&& 0 < s.width
            &&& p + s.width <= c.len()
            &&& forall|j: int| p <= j < p + s.width ==> #[trigger] c.owner[j] == p
            &&& s.value matches Some(v) ==> forall|j: int|
                0 <= j < s.width ==> #[trigger] c.bytes[p + j] == le(v, s.width)[j]
        } by {
            if p != a.len() {
                assert(a.slots.dom().contains(p));
                let s = a.slots[p];
                if s.value is Some {
                    assert forall|j: int| 0 <= j < s.width implies #[trigger] c.bytes[p + j] == le(
                        s.value->0,
                        s.width,
                    )[j] by {
                        assert(a.bytes[p + j] == le(s.value->0, s.width)[j]);
                    }
                }
                assert forall|j: int| p <= j < p + s.width implies #[trigger] c.owner[j] == p by {
                    assert(a.owner[j] == p);
                }
            }
        }
    }
}

pub proof fn lemma_held_kept(a: Image, b: Image, p: int, n: nat, tag: (nat, nat))
    requires
        a.extends_to(b),
        a.holds(p, n, tag),
    ensures
        b.holds(p, n, tag),
{
    reveal(Image::holds);
    reveal(Image::grows_to);
    reveal(Image::extends_to);
}

pub proof fn lemma_held_bounds(a: Image, p: int, n: nat, tag: (nat, nat))
    requires
        a.inv(),
        a.holds(p, n, tag),
    ensures
        0 <= p,
        0 < n,
        p + n <= a.len(),
        a.keeps(p, n, tag),
{
    reveal(Image::holds);
    reveal(Image::keeps);
    reveal(Image::inv);
}

/// A new slot is empty.
pub proof fn lemma_reserved(a: Image, n: nat, tag: (nat, nat))
    ensures
        a.slot(n, tag).holds(a.len() as int, n, tag),
        a.slot(n, tag).keeps(a.len() as int, n, tag),
{
    reveal(Image::slot);
    reveal(Image::holds);
    reveal(Image::keeps);
}

/// A slot can be filled again.
pub proof fn lemma_refill(b: Image, p: int, n: nat, v: nat, tag: (nat, nat))
    requires
        b.inv(),
        b.keeps(p, n, tag),
    ensures
        0 <= p,
        p + n <= b.len(),
        b.fill(p, n, v).inv(),
        b.fill(p, n, v).len() == b.len(),
        b.fill(p, n, v).keeps(p, n, tag),
{
    reveal(Image::fill);
    reveal(Image::keeps);
    reveal(Image::inv);
    bytes::lemma_le_len(v, n);
    let c = b.fill(p, n, v);
    assert(b.slots.dom().contains(p));
    assert forall|q: int| #![trigger c.slots.dom().contains(q)] c.slots.dom().contains(q) implies {
        let s = c.slots[q];
        &&& 0 <= q
        &&& 0 < s.width
        &&& q + s.width <= c.len()
        &&& forall|j: int| q <= j < q + s.width ==> #[trigger] c.owner[j] == q
        &&& s.value matches Some(v) ==> forall|j: int|
            0 <= j < s.width ==> #[trigger] c.bytes[q + j] == le(v, s.width)[j]
    } by {
        assert(b.slots.dom().contains(q));
        let s = b.slots[q];
        if q != p && s.value is Some {
            assert forall|j: int| 0 <= j < s.width implies #[trigger] c.bytes[q + j] == le(
                s.value->0,
                s.width,
            )[j] by {
                assert(b.bytes[q + j] == le(s.value->0, s.width)[j]);
                assert(b.owner[q + j] == q);
                if p <= q + j < p + n {
                    assert(b.owner[q + j] == p);
                }
            }
        }
    }
}

pub proof fn lemma_fill(b: Image, p: int, n: nat, v: nat, tag: (nat, nat))
    requires
        b.inv(),
        b.holds(p, n, tag),
    ensures
        b.grows_to(b.fill(p, n, v)),
        b.fill(p, n, v).len() == b.len(),
{
    lemma_held_bounds(b, p, n, tag);
    lemma_refill(b, p, n, v, tag);
    reveal(Image::fill);
    reveal(Image::holds);
    reveal(Image::inv);
    reveal(Image::grows_to);
    bytes::lemma_le_len(v, n);
    let c = b.fill(p, n, v);
    assert(b.slots.dom().contains(p));
    assert forall|i: int| 0 <= i < b.len() implies {
        &&& #[trigger] c.owner[i] == b.owner[i]
        &&& b.owner[i] == -1 ==> c.bytes[i] == b.bytes[i]
    } by {
        if p <= i < p + n {
            assert(b.owner[i] == p);
        }
    }
}

pub proof fn lemma_fill_extends(a: Image, b: Image, p: int, n: nat, v: nat, tag: (nat, nat))
    requires
        a.extends_to(b),
        b.holds(p, n, tag),
        a.len() <= p,
    ensures
        a.extends_to(b.fill(p, n, v)),
        b.fill(p, n, v).len() == b.len(),
{
    lemma_extends(a, b);
    lemma_fill(b, p, n, v, tag);
    lemma_grows_trans(a, b, b.fill(p, n, v));
    reveal(Image::fill);
    reveal(Image::inv);
    reveal(Image::grows_to);
    reveal(Image::extends_to);
}

pub proof fn lemma_fill_others(b: Image, p: int, n: nat, v: nat, q: int, m: nat, tag: (nat, nat))
    requires
        b.holds(q, m, tag),
        p != q,
    ensures
        b.fill(p, n, v).holds(q, m, tag),
{
    reveal(Image::fill);
    reveal(Image::holds);
}

/// A filled-in number is read back from every later blob.
pub proof fn lemma_fill_read(b: Image, p: int, n: nat, v: nat, tag: (nat, nat), fin: Image)
    requires
        b.inv(),
        b.holds(p, n, tag),
        b.fill(p, n, v).grows_to(fin),
    ensures
        p + n <= fin.len(),
        un_le(fin.bytes, p, n) == v % capacity(n),
        v < capacity(n) ==> un_le(fin.bytes, p, n) == v,
{
    lemma_fill(b, p, n, v, tag);
    lemma_held_bounds(b, p, n, tag);
    reveal(Image::fill);
    reveal(Image::holds);
    reveal(Image::inv);
    reveal(Image::grows_to);
    let c = b.fill(p, n, v);
    assert(c.slots.dom().contains(p));
    assert(fin.slots.dom().contains(p));
    assert(fin.slots[p] == c.slots[p]);
    bytes::lemma_le_wraps(v, n);
    let w = v % capacity(n);
    assert(w < capacity(n)) by (nonlinear_arith)
        requires
            w == v % capacity(n),
            capacity(n) > 0,
    ;
    if v < capacity(n) {
        assert(w == v) by (nonlinear_arith)
            requires
                w == v % capacity(n),
                v < capacity(n),
        ;
    }
    bytes::lemma_un_le_of_le(fin.bytes, p, w, n);
}

} // verus!
