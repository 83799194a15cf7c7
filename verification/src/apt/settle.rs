//! Once everything is placed, every waiting slot points to its data.
use super::bytes::{self, capacity, un_le};
use super::clean::{clean_names, clean_params};
use super::flush::{self, ptrs, waiting};
use super::layout;
use super::out::{self, Out, Pending};
use super::readback::{
    clean, limit, lists, lists_params, lists_texts, settled, spells, target,
};
use super::reader::to_latin1;
use vstd::prelude::*;

verus! {

/// Whether the text `s` is due at the slot `p`.
pub open spec fn due(fin: Out, p: int, s: Seq<char>) -> bool {
    exists|k: int| 0 <= k < fin.def.strings.len() && #[trigger] fin.def.strings[k] == (p, s)
}

/// Whether slots for the texts `v` stand at the aligned `off`.
pub open spec fn rows_texts(fin: Out, off: int, v: Seq<Seq<char>>) -> bool {
    &&& 0 <= off
    &&& off % (fin.ps() as int) == 0
    &&& off + ptrs(fin.ps(), v.len() as int) <= fin.len()
    &&& forall|j: int| 0 <= j < v.len() ==> due(fin, off + ptrs(fin.ps(), j), #[trigger] v[j])
}

/// Whether the parameter table `v` stands at the aligned `off`, its names due.
pub open spec fn rows_params(fin: Out, off: int, v: Seq<(u32, Seq<char>)>) -> bool {
    &&& 0 <= off
    &&& off % (fin.ps() as int) == 0
    &&& off + ptrs(fin.ps(), 2 * v.len() as int) <= fin.len()
    &&& forall|j: int|
        0 <= j < v.len() ==> {
            &&& un_le(fin.img.bytes, off + ptrs(fin.ps(), 2 * j), 4) == (#[trigger] v[j]).0
            &&& due(fin, off + ptrs(fin.ps(), 2 * j + 1), v[j].1)
        }
}

proof fn lemma_filled(b: Out, p: int, v: int, tag: (nat, nat), fin: Out)
    requires
        b.img.inv(),
        b.img.holds(p, b.ps(), tag),
        0 <= v <= limit(fin.ps()),
        b.ptr_fill(p, v).img.grows_to(fin.img),
    ensures
        target(fin, p) == v,
        b.ps() == fin.ps(),
        b.img.grows_to(fin.img),
{
    layout::lemma_fill(b.img, p, b.ps(), v as nat, tag);
    layout::lemma_grows_trans(b.img, b.ptr_fill(p, v).img, fin.img);
    layout::lemma_grows(b.img, fin.img);
    bytes::lemma_capacity();
    layout::lemma_fill_read(b.img, p, b.ps(), v as nat, tag, fin.img);
}

proof fn lemma_values_read(o: Out, v: Seq<nat>, n: nat, fin: Out)
    requires
        o.img.inv(),
        o.len() % (o.ps() as int) == 0,
        n <= v.len(),
        flush::ptr_values(o, v, n).img.grows_to(fin.img),
    ensures
        forall|j: int|
            0 <= j < n && v[j] < capacity(fin.ps()) ==> target(fin, o.len() + ptrs(fin.ps(), j))
                == #[trigger] v[j],
        o.ps() == fin.ps(),
        o.len() + ptrs(fin.ps(), n as int) <= fin.len(),
    decreases n,
{
    flush::lemma_ptr_values(o, v, n);
    layout::lemma_grows(flush::ptr_values(o, v, n).img, fin.img);
    if n > 0 {
        let m = (n - 1) as nat;
        flush::lemma_ptr_values(o, v, m);
        let b = flush::ptr_values(o, v, m);
        layout::lemma_extends(o.img, b.img);
        flush::lemma_align_img(b);
        let c = b.align_ptr();
        layout::lemma_round_up(b.len(), o.ps());
        layout::lemma_put(c.img, o.ps(), v[m as int]);
        let d = c.put(o.ps(), v[m as int]);
        layout::lemma_extends(c.img, d.img);
        layout::lemma_extends(b.img, c.img);
        layout::lemma_grows_trans(c.img, d.img, fin.img);
        layout::lemma_grows_trans(b.img, c.img, fin.img);
        lemma_values_read(o, v, m, fin);
        if v[m as int] < capacity(o.ps()) {
            layout::lemma_put_read(c.img, o.ps(), v[m as int], fin.img);
        }
    }
}

proof fn lemma_ptr_arrays_read(o: Out, n: nat, fin: Out)
    requires
        waiting(o, 0, 0, 0, 0),
        n <= o.def.ptr_arrays.len(),
        flush::place_ptr_arrays(o, n).img.grows_to(fin.img),
        fin.len() <= limit(fin.ps()),
    ensures
        forall|k: int|
            0 <= k < n ==> lists(
                fin,
                target(fin, (#[trigger] o.def.ptr_arrays[k]).0),
                o.def.ptr_arrays[k].1,
            ),
    decreases n,
{
    if n > 0 {
        let m = (n - 1) as nat;
        flush::lemma_place_ptr_arrays(o, m);
        let p = flush::place_ptr_arrays(o, m);
        let e = o.def.ptr_arrays[m as int];
        flush::lemma_place_ptr_array(p, m);
        layout::lemma_grows_trans(p.img, flush::place_ptr_arrays(o, n).img, fin.img);
        lemma_ptr_arrays_read(o, m, fin);
        flush::lemma_waiting_inv(p, 0, m, 0, 0);
        flush::lemma_align_img(p);
        let a = p.align_ptr();
        flush::lemma_ptr_values(a, e.1, e.1.len());
        let b = flush::ptr_values(a, e.1, e.1.len());
        layout::lemma_extends(a.img, b.img);
        assert(b.img.holds(e.0, b.ps(), (2, m))) by {
            reveal(waiting);
            assert(b.def.ptr_arrays[m as int] == e);
        }
        layout::lemma_fill(b.img, e.0, b.ps(), a.len() as nat, (2, m));
        layout::lemma_grows(b.ptr_fill(e.0, a.len()).img, fin.img);
        lemma_filled(b, e.0, a.len(), (2, m), fin);
        lemma_values_read(a, e.1, e.1.len(), fin);
    }
}

proof fn lemma_string_arrays_read(o: Out, i2: nat, n: nat, fin: Out)
    requires
        waiting(o, 0, i2, 0, 0),
        n <= o.def.string_arrays.len(),
        flush::place_string_arrays(o, n).img.grows_to(fin.img),
        out::starts(flush::place_string_arrays(o, n).def.strings, fin.def.strings),
        fin.len() <= limit(fin.ps()),
    ensures
        forall|k: int|
            0 <= k < n ==> rows_texts(
                fin,
                target(fin, (#[trigger] o.def.string_arrays[k]).0),
                o.def.string_arrays[k].1,
            ),
    decreases n,
{
    if n > 0 {
        let m = (n - 1) as nat;
        flush::lemma_place_string_arrays(o, i2, m);
        let p = flush::place_string_arrays(o, m);
        let e = o.def.string_arrays[m as int];
        let q = flush::place_string_arrays(o, n);
        flush::lemma_place_string_array(p, i2, m);
        layout::lemma_grows_trans(p.img, q.img, fin.img);
        out::lemma_starts_trans(p.def.strings, q.def.strings, fin.def.strings);
        lemma_string_arrays_read(o, i2, m, fin);
        flush::lemma_waiting_inv(p, 0, i2, m, 0);
        flush::lemma_align_img(p);
        let a = p.align_ptr();
        flush::lemma_waiting_ext(p, a, 0, i2, m, 0);
        flush::lemma_texts(a, e.1, e.1.len(), 0, i2, m, 0);
        let b = flush::texts(a, e.1, e.1.len());
        layout::lemma_extends(a.img, b.img);
        assert(b.img.holds(e.0, b.ps(), (3, m))) by {
            reveal(waiting);
            assert(b.def.string_arrays[m as int] == e);
        }
        layout::lemma_fill(b.img, e.0, b.ps(), a.len() as nat, (3, m));
        layout::lemma_grows(b.ptr_fill(e.0, a.len()).img, fin.img);
        lemma_filled(b, e.0, a.len(), (3, m), fin);
        let off = a.len();
        assert forall|j: int| 0 <= j < e.1.len() implies due(
            fin,
            off + ptrs(fin.ps(), j),
            #[trigger] e.1[j],
        ) by {
            let k = a.def.strings.len() + j;
            assert(b.def.strings[k] == (off + ptrs(fin.ps(), j), e.1[j]));
            assert(q.def.strings == b.def.strings);
            assert(fin.def.strings[k] == (off + ptrs(fin.ps(), j), e.1[j])) by {
                reveal(out::starts);
            }
            assert(k < fin.def.strings.len()) by {
                reveal(out::starts);
            }
        }
    }
}

proof fn lemma_reg_texts_read(o: Out, v: Seq<(u32, Seq<char>)>, n: nat, i2: nat, i3: nat, i4: nat, fin: Out)
    requires
        waiting(o, 0, i2, i3, i4),
        o.len() % (o.ps() as int) == 0,
        n <= v.len(),
        flush::reg_texts(o, v, n).img.grows_to(fin.img),
    ensures
        forall|j: int|
            0 <= j < n ==> un_le(fin.img.bytes, o.len() + ptrs(fin.ps(), 2 * j), 4) == (
            #[trigger] v[j]).0,
        o.ps() == fin.ps(),
    decreases n,
{
    flush::lemma_reg_texts(o, v, n, 0, i2, i3, i4);
    layout::lemma_grows(flush::reg_texts(o, v, n).img, fin.img);
    if n > 0 {
        let m = (n - 1) as nat;
        flush::lemma_reg_texts(o, v, m, 0, i2, i3, i4);
        let b = flush::reg_texts(o, v, m);
        flush::lemma_waiting_inv(o, 0, i2, i3, i4);
        flush::lemma_waiting_inv(b, 0, i2, i3, i4);
        layout::lemma_extends(o.img, b.img);
        flush::lemma_align_img(b);
        let c = b.align_ptr();
        layout::lemma_round_up(b.len(), o.ps());
        let x = v[m as int].0 as nat;
        layout::lemma_put(c.img, 4, x);
        let d = c.put(4, x);
        layout::lemma_extends(c.img, d.img);
        layout::lemma_extends(b.img, c.img);
        layout::lemma_extends_trans(b.img, c.img, d.img);
        flush::lemma_waiting_ext(b, d, 0, i2, i3, i4);
        flush::lemma_text_waiting(d, v[m as int].1, 0, i2, i3, i4);
        layout::lemma_extends(d.img, d.text(v[m as int].1).img);
        layout::lemma_grows_trans(d.img, d.text(v[m as int].1).img, fin.img);
        layout::lemma_grows_trans(c.img, d.img, fin.img);
        layout::lemma_grows_trans(b.img, c.img, fin.img);
        lemma_reg_texts_read(o, v, m, i2, i3, i4, fin);
        bytes::lemma_capacity();
        layout::lemma_put_read(c.img, 4, x, fin.img);
        assert(b.len() == o.len() + ptrs(o.ps(), 2 * m as int));
        assert(c.len() == b.len());
        assert(un_le(fin.img.bytes, o.len() + ptrs(fin.ps(), 2 * m as int), 4) == v[m as int].0);
    }
}

proof fn lemma_params_read(o: Out, i2: nat, i3: nat, n: nat, fin: Out)
    requires
        waiting(o, 0, i2, i3, 0),
        n <= o.def.reg_params.len(),
        flush::place_all_params(o, n).img.grows_to(fin.img),
        out::starts(flush::place_all_params(o, n).def.strings, fin.def.strings),
        fin.len() <= limit(fin.ps()),
    ensures
        forall|k: int|
            0 <= k < n ==> rows_params(
                fin,
                target(fin, (#[trigger] o.def.reg_params[k]).0),
                o.def.reg_params[k].1,
            ),
    decreases n,
{
    if n > 0 {
        let m = (n - 1) as nat;
        flush::lemma_place_all_params(o, i2, i3, m);
        let p = flush::place_all_params(o, m);
        let e = o.def.reg_params[m as int];
        let q = flush::place_all_params(o, n);
        flush::lemma_place_params(p, i2, i3, m);
        layout::lemma_grows_trans(p.img, q.img, fin.img);
        out::lemma_starts_trans(p.def.strings, q.def.strings, fin.def.strings);
        lemma_params_read(o, i2, i3, m, fin);
        flush::lemma_waiting_inv(p, 0, i2, i3, m);
        flush::lemma_align_img(p);
        let a = p.align_ptr();
        flush::lemma_waiting_ext(p, a, 0, i2, i3, m);
        flush::lemma_reg_texts(a, e.1, e.1.len(), 0, i2, i3, m);
        let b = flush::reg_texts(a, e.1, e.1.len());
        layout::lemma_extends(a.img, b.img);
        assert(b.img.holds(e.0, b.ps(), (4, m))) by {
            reveal(waiting);
            assert(b.def.reg_params[m as int] == e);
        }
        layout::lemma_fill(b.img, e.0, b.ps(), a.len() as nat, (4, m));
        layout::lemma_grows(b.ptr_fill(e.0, a.len()).img, fin.img);
        lemma_filled(b, e.0, a.len(), (4, m), fin);
        lemma_reg_texts_read(a, e.1, e.1.len(), i2, i3, m, fin);
        let off = a.len();
        assert forall|j: int| 0 <= j < e.1.len() implies {
            &&& un_le(fin.img.bytes, off + ptrs(fin.ps(), 2 * j), 4) == (#[trigger] e.1[j]).0
            &&& due(fin, off + ptrs(fin.ps(), 2 * j + 1), e.1[j].1)
        } by {
            let k = a.def.strings.len() + j;
            assert(b.def.strings[k] == (off + ptrs(fin.ps(), 2 * j + 1), e.1[j].1));
            assert(q.def.strings == b.def.strings);
            assert(fin.def.strings[k] == (off + ptrs(fin.ps(), 2 * j + 1), e.1[j].1)) by {
                reveal(out::starts);
            }
            assert(k < fin.def.strings.len()) by {
                reveal(out::starts);
            }
        }
    }
}

/// Whether every string in the list is clean.
pub open spec fn all_clean(v: Seq<(int, Seq<char>)>) -> bool {
    forall|k: int| 0 <= k < v.len() ==> clean((#[trigger] v[k]).1)
}

/// Whether the text `s` and its terminator stand at `off`.
pub open spec fn stands(fin: Out, off: int, s: Seq<char>) -> bool {
    &&& 0 <= off
    &&& off + s.len() < fin.len()
    &&& forall|i: int| 0 <= i < s.len() ==> #[trigger] fin.img.bytes[off + i] == to_latin1(s)[i]
    &&& fin.img.bytes[off + s.len()] == 0
}

/// Whether the text `s` is among the first `n` strings.
#[verifier::opaque]
pub open spec fn among(v: Seq<(int, Seq<char>)>, n: int, s: Seq<char>) -> bool {
    exists|j: int| 0 <= j < n && (#[trigger] v[j]).1 == s
}

/// The texts of the first `n` strings, each once and terminated, in the order in which
/// they first come.
pub open spec fn each_once(v: Seq<(int, Seq<char>)>, n: nat) -> Seq<u8>
    decreases n,
{
    if n == 0 {
        Seq::empty()
    } else {
        let s = v[n - 1].1;
        let before = each_once(v, (n - 1) as nat);
        if among(v, n - 1, s) {
            before
        } else {
            before + to_latin1(s).push(0)
        }
    }
}

proof fn lemma_among(v: Seq<(int, Seq<char>)>, n: nat)
    requires
        0 < n <= v.len(),
    ensures
        forall|x: Seq<char>| #[trigger]
            among(v, n as int, x) <==> x == v[n - 1].1 || among(v, n - 1, x),
        forall|k: int| 0 <= k < n ==> among(v, n as int, (#[trigger] v[k]).1),
        forall|k: int| 0 <= k < n - 1 ==> among(v, n - 1, (#[trigger] v[k]).1),
{
    reveal(among);
    assert forall|x: Seq<char>| #[trigger] among(v, n as int, x) <==> x == v[n - 1].1 || among(
        v,
        n - 1,
        x,
    ) by {
        if among(v, n as int, x) {
            let j = choose|j: int| 0 <= j < n && (#[trigger] v[j]).1 == x;
            assert(v[j].1 == x);
        }
        if among(v, n - 1, x) {
            let j = choose|j: int| 0 <= j < n - 1 && (#[trigger] v[j]).1 == x;
            assert(v[j].1 == x);
        }
    }
}

/// What placing the first `n` strings behind `from` bytes has come to: their texts follow,
/// each once, and the slots lead to them.
#[verifier::opaque]
spec fn shelved(
    v: Seq<(int, Seq<char>)>,
    from: int,
    n: nat,
    bytes: Seq<u8>,
    known: Map<Seq<char>, u64>,
    fin: Out,
) -> bool {
    &&& 0 <= from
    &&& bytes.len() == from + each_once(v, n).len()
    &&& bytes.skip(from) == each_once(v, n)
    &&& forall|s: Seq<char>| #[trigger] known.dom().contains(s) <==> among(v, n as int, s)
    &&& forall|s: Seq<char>| #[trigger]
        known.dom().contains(s) ==> stands(fin, known[s] as int, s) && from <= known[s]
    &&& forall|k: int| #![trigger v[k]]
        0 <= k < n ==> {
            &&& target(fin, v[k].0) == known[v[k].1]
            &&& !among(v, k, v[k].1) ==> known[v[k].1] == from + each_once(v, k as nat).len()
        }
}

proof fn lemma_shelve_known(
    v: Seq<(int, Seq<char>)>,
    from: int,
    m: nat,
    bytes: Seq<u8>,
    later: Seq<u8>,
    known: Map<Seq<char>, u64>,
    fin: Out,
)
    requires
        m < v.len(),
        shelved(v, from, m, bytes, known, fin),
        known.dom().contains(v[m as int].1),
        later.len() == bytes.len(),
        later.skip(from) == bytes.skip(from),
        target(fin, v[m as int].0) == known[v[m as int].1],
    ensures
        shelved(v, from, m + 1, later, known, fin),
{
    reveal(shelved);
    lemma_among(v, m + 1);
    assert(among(v, m as int, v[m as int].1));
    assert(each_once(v, m + 1) == each_once(v, m));
}

proof fn lemma_shelve_new(
    v: Seq<(int, Seq<char>)>,
    from: int,
    m: nat,
    bytes: Seq<u8>,
    later: Seq<u8>,
    known: Map<Seq<char>, u64>,
    fin: Out,
)
    requires
        m < v.len(),
        shelved(v, from, m, bytes, known, fin),
        !known.dom().contains(v[m as int].1),
        bytes.len() <= u64::MAX,
        later.len() == bytes.len() + v[m as int].1.len() + 1,
        later.skip(from) == bytes.skip(from) + to_latin1(v[m as int].1).push(0),
        target(fin, v[m as int].0) == bytes.len(),
        stands(fin, bytes.len() as int, v[m as int].1),
    ensures
        shelved(v, from, m + 1, later, known.insert(v[m as int].1, bytes.len() as u64), fin),
{
    reveal(shelved);
    lemma_among(v, m + 1);
    let s = v[m as int].1;
    let learned = known.insert(s, bytes.len() as u64);
    assert(!among(v, m as int, s));
    assert(each_once(v, m + 1) == each_once(v, m) + to_latin1(s).push(0));
    assert forall|k: int| #![trigger v[k]] 0 <= k < m + 1 implies {
        &&& target(fin, v[k].0) == learned[v[k].1]
        &&& !among(v, k, v[k].1) ==> learned[v[k].1] == from + each_once(v, k as nat).len()
    } by {
        if k < m {
            assert(among(v, m as int, v[k].1));
            assert(v[k].1 != s);
        }
    }
}

proof fn lemma_strings_read(o: Out, n: nat, i2: nat, i3: nat, i4: nat, fin: Out)
    requires
        waiting(o, 0, i2, i3, i4),
        n <= o.def.strings.len(),
        flush::place_strings(o, n).0.img.grows_to(fin.img),
        fin.len() <= limit(fin.ps()),
    ensures
        shelved(
            o.def.strings,
            o.len(),
            n,
            flush::place_strings(o, n).0.img.bytes,
            flush::place_strings(o, n).1,
            fin,
        ),
    decreases n,
{
    let v = o.def.strings;
    if n == 0 {
        reveal(shelved);
        reveal(among);
        assert(o.img.bytes.skip(o.len()) =~= each_once(v, 0));
    } else {
        let m = (n - 1) as nat;
        flush::lemma_place_strings(o, m, i2, i3, i4);
        let (p, known) = flush::place_strings(o, m);
        let (pos, s) = v[m as int];
        let q = flush::place_strings(o, n).0;
        flush::lemma_place_string(o, m, i2, i3, i4);
        layout::lemma_grows_trans(p.img, q.img, fin.img);
        lemma_strings_read(o, m, i2, i3, i4, fin);
        flush::lemma_waiting_inv(p, m, i2, i3, i4);
        layout::lemma_grows(o.img, p.img);
        layout::lemma_grows(p.img, fin.img);
        assert(o.img.holds(pos, o.ps(), (1, m))) by {
            reveal(waiting);
            assert(o.def.strings[m as int] == (pos, s));
        }
        flush::lemma_waiting_inv(o, 0, i2, i3, i4);
        layout::lemma_held_bounds(o.img, pos, o.ps(), (1, m));
        if known.dom().contains(s) {
            assert(stands(fin, known[s] as int, s)) by {
                reveal(shelved);
            }
            lemma_filled(p, pos, known[s] as int, (1, m), fin);
            lemma_fill_below(p, pos, known[s] as int, o.len());
            lemma_shelve_known(v, o.len(), m, p.img.bytes, q.img.bytes, known, fin);
        } else {
            let t = to_latin1(s).push(0);
            let r = p.raw(t);
            flush::lemma_waiting_inv(r, m, i2, i3, i4);
            layout::lemma_extends(p.img, r.img);
            lemma_filled(r, pos, p.len(), (1, m), fin);
            lemma_fill_below(r, pos, p.len(), o.len());
            layout::lemma_append_read(p.img, t, fin.img);
            lemma_stands(p, s, fin);
            assert(r.img.bytes == p.img.bytes + t) by {
                reveal(layout::Image::append);
            }
            assert((p.img.bytes + t).skip(o.len()) =~= p.img.bytes.skip(o.len()) + t);
            lemma_shelve_new(v, o.len(), m, p.img.bytes, q.img.bytes, known, fin);
        }
    }
}

/// A text that was appended with its terminator stands there.
proof fn lemma_stands(p: Out, s: Seq<char>, fin: Out)
    requires
        p.img.inv(),
        p.raw(to_latin1(s).push(0)).img.grows_to(fin.img),
    ensures
        stands(fin, p.len(), s),
{
    let t = to_latin1(s).push(0);
    let off = p.len();
    layout::lemma_append_read(p.img, t, fin.img);
    assert forall|i: int| 0 <= i < s.len() implies #[trigger] fin.img.bytes[off + i] == to_latin1(
        s,
    )[i] by {
        assert(fin.img.bytes[p.img.len() + i] == t[i]);
    }
    let e = s.len() as int;
    assert(fin.img.bytes[p.img.len() + e] == t[e]);
}

/// Filling a slot changes nothing from `from` on, where it stands before that.
proof fn lemma_fill_below(b: Out, p: int, v: int, from: int)
    requires
        0 <= v,
        0 <= p,
        p + b.ps() <= from <= b.len(),
    ensures
        b.ptr_fill(p, v).img.bytes.len() == b.img.bytes.len(),
        b.ptr_fill(p, v).img.bytes.skip(from) == b.img.bytes.skip(from),
{
    reveal(layout::Image::fill);
    bytes::lemma_le_len(v as nat, b.ps());
    assert(b.ptr_fill(p, v).img.bytes.skip(from) =~= b.img.bytes.skip(from));
}

proof fn lemma_due(fin: Out, p: int, s: Seq<char>)
    requires
        due(fin, p, s),
        clean(s),
        forall|k: int|
            0 <= k < fin.def.strings.len() && clean(fin.def.strings[k].1) ==> spells(
                fin,
                target(fin, (#[trigger] fin.def.strings[k]).0),
                fin.def.strings[k].1,
            ),
    ensures
        spells(fin, target(fin, p), s),
{
    let k = choose|k: int|
        0 <= k < fin.def.strings.len() && #[trigger] fin.def.strings[k] == (p, s);
    assert(fin.def.strings[k] == (p, s));
}

/// Whether the strings `v` stand behind the first `from` bytes, each text once, in the
/// order in which the texts first come, and their slots lead to them: strings with the
/// same text to the same place.
pub open spec fn strings_placed(v: Seq<(int, Seq<char>)>, from: int, fin: Out) -> bool {
    &&& fin.img.bytes.skip(from) == each_once(v, v.len())
    &&& forall|k: int| #![trigger v[k]]
        0 <= k < v.len() ==> {
            let (p, s) = v[k];
            &&& from <= target(fin, p)
            &&& stands(fin, target(fin, p), s)
            &&& clean(s) ==> spells(fin, target(fin, p), s)
            &&& !among(v, k, s) ==> target(fin, p) == from + each_once(v, k as nat).len()
        }
    &&& forall|j: int, k: int| #![trigger v[j], v[k]]
        0 <= j < v.len() && 0 <= k < v.len() && v[j].1 == v[k].1 ==> target(fin, v[j].0)
            == target(fin, v[k].0)
}

/// Whether the slots of the arrays lead to them, with the texts of arrays of strings and
/// of parameter tables due.
pub open spec fn arrays_placed(def: Pending, fin: Out) -> bool {
    &&& forall|k: int|
        0 <= k < def.ptr_arrays.len() ==> lists(
            fin,
            target(fin, (#[trigger] def.ptr_arrays[k]).0),
            def.ptr_arrays[k].1,
        )
    &&& forall|k: int| #![trigger def.string_arrays[k]]
        0 <= k < def.string_arrays.len() ==> {
            let (p, v) = def.string_arrays[k];
            &&& rows_texts(fin, target(fin, p), v)
            &&& clean_names(v) ==> lists_texts(fin, target(fin, p), v)
        }
    &&& forall|k: int| #![trigger def.reg_params[k]]
        0 <= k < def.reg_params.len() ==> {
            let (p, v) = def.reg_params[k];
            &&& rows_params(fin, target(fin, p), v)
            &&& clean_params(v) ==> lists_params(fin, target(fin, p), v)
        }
}

/// Once everything is placed, each waiting slot leads to its data, whatever the strings
/// hold: strings, arrays of numbers, arrays of strings and parameter tables. The strings
/// come last, behind all arrays. Each text is there once, in the order in which the texts
/// first come, and all strings with that text share it; one without a zero character is
/// read back as it was. What was there stays where it was, and with nothing waiting any
/// more, placing adds nothing.
pub proof fn law_flush(o: Out)
    requires
        o.ok(),
        flush::flush(o).len() <= limit(o.ps()),
    ensures
        o.grows_to(flush::flush(o)),
        flush::flush(o).consts == o.consts,
        flush::flush(o).def == (Pending { strings: flush::all_strings(o), ..o.def }),
        out::starts(o.def.strings, flush::all_strings(o)),
        o.len() <= flush::place_arrays(o).len(),
        strings_placed(flush::all_strings(o), flush::place_arrays(o).len(), flush::flush(o)),
        arrays_placed(o.def, flush::flush(o)),
        flush::flush(Out { def: Pending::empty(), ..flush::flush(o) }) == (Out {
            def: Pending::empty(),
            ..flush::flush(o)
        }),
{
    let fin = flush::flush(o);
    let (n2, n3, n4) = (
        o.def.ptr_arrays.len(),
        o.def.string_arrays.len(),
        o.def.reg_params.len(),
    );
    flush::lemma_waiting_start(o);
    flush::lemma_place_ptr_arrays(o, n2);
    let a = flush::place_ptr_arrays(o, n2);
    assert(waiting(a, 0, n2, 0, 0));
    flush::lemma_place_string_arrays(a, n2, n3);
    let b = flush::place_string_arrays(a, n3);
    flush::lemma_place_all_params(b, n2, n3, n4);
    let c = flush::place_all_params(b, n4);
    let n1 = c.def.strings.len();
    assert(c == flush::place_arrays(o));
    flush::lemma_place_strings(c, n1, n2, n3, n4);
    assert(fin == flush::place_strings(c, n1).0);
    layout::lemma_grows_trans(b.img, c.img, fin.img);
    layout::lemma_grows_trans(a.img, b.img, fin.img);
    layout::lemma_grows_trans(o.img, a.img, fin.img);
    layout::lemma_grows(o.img, a.img);
    layout::lemma_grows(a.img, b.img);
    layout::lemma_grows(b.img, c.img);
    layout::lemma_grows(c.img, fin.img);
    layout::lemma_refl(fin.img);
    out::lemma_starts_refl(c.def.strings);
    out::lemma_starts_trans(b.def.strings, c.def.strings, c.def.strings);
    out::lemma_starts_trans(a.def.strings, b.def.strings, c.def.strings);
    lemma_ptr_arrays_read(o, n2, fin);
    lemma_string_arrays_read(a, n2, n3, fin);
    lemma_params_read(b, n2, n3, n4, fin);
    lemma_strings_read(c, n1, n2, n3, n4, fin);
    lemma_place_params_keep(b, n4);
    let known = flush::place_strings(c, n1).1;
    let all = c.def.strings;
    reveal(shelved);
    assert forall|k: int| #![trigger all[k]] 0 <= k < all.len() implies {
        let (p, s) = all[k];
        &&& known.dom().contains(s)
        &&& 0 < c.len()
    } by {
        lemma_among(all, n1);
        assert(c.img.holds(all[k].0, c.ps(), (1, k as nat))) by {
            reveal(waiting);
        }
        flush::lemma_waiting_inv(c, 0, n2, n3, n4);
        layout::lemma_held_bounds(c.img, all[k].0, c.ps(), (1, k as nat));
    }
    assert forall|k: int| 0 <= k < n3 && clean_names(o.def.string_arrays[k].1) implies lists_texts(
        fin,
        target(fin, (#[trigger] o.def.string_arrays[k]).0),
        o.def.string_arrays[k].1,
    ) by {
        let (p, v) = a.def.string_arrays[k];
        let off = target(fin, p);
        assert(rows_texts(fin, off, v));
        assert forall|j: int| 0 <= j < v.len() implies spells(
            fin,
            target(fin, off + ptrs(fin.ps(), j)),
            #[trigger] v[j],
        ) by {
            lemma_due(fin, off + ptrs(fin.ps(), j), v[j]);
        }
    }
    assert forall|k: int| 0 <= k < n4 && clean_params(o.def.reg_params[k].1) implies lists_params(
        fin,
        target(fin, (#[trigger] o.def.reg_params[k]).0),
        o.def.reg_params[k].1,
    ) by {
        let (p, v) = b.def.reg_params[k];
        let off = target(fin, p);
        assert(rows_params(fin, off, v));
        assert forall|j: int| 0 <= j < v.len() implies {
            &&& un_le(fin.img.bytes, off + ptrs(fin.ps(), 2 * j), 4) == (#[trigger] v[j]).0
            &&& spells(fin, target(fin, off + ptrs(fin.ps(), 2 * j + 1)), v[j].1)
        } by {
            lemma_due(fin, off + ptrs(fin.ps(), 2 * j + 1), v[j].1);
        }
    }
    assert forall|k: int| 0 <= k < n3 implies rows_texts(
        fin,
        target(fin, (#[trigger] o.def.string_arrays[k]).0),
        o.def.string_arrays[k].1,
    ) by {
        assert(a.def.string_arrays[k] == o.def.string_arrays[k]);
    }
    assert forall|k: int| 0 <= k < n4 implies rows_params(
        fin,
        target(fin, (#[trigger] o.def.reg_params[k]).0),
        o.def.reg_params[k].1,
    ) by {
        assert(b.def.reg_params[k] == o.def.reg_params[k]);
    }
    assert(fin.def == (Pending { strings: all, ..o.def }));
    assert forall|k: int| #![trigger all[k]] 0 <= k < all.len() implies {
        let (p, s) = all[k];
        &&& c.len() <= target(fin, p)
        &&& stands(fin, target(fin, p), s)
        &&& clean(s) ==> spells(fin, target(fin, p), s)
        &&& !among(all, k, s) ==> target(fin, p) == c.len() + each_once(all, k as nat).len()
    } by {
    }
    assert(strings_placed(all, c.len(), fin));
    assert(arrays_placed(o.def, fin));
    assert(o.grows_to(fin)) by {
        reveal(Out::grows_to);
        out::lemma_starts_refl(o.consts);
        out::lemma_starts_refl(o.def.ptr_arrays);
        out::lemma_starts_refl(o.def.string_arrays);
        out::lemma_starts_refl(o.def.reg_params);
    }
}

/// Placing everything settles the blob.
pub proof fn lemma_settled(o: Out)
    requires
        o.ok(),
        flush::flush(o).len() <= limit(o.ps()),
        o.consts.len() <= i32::MAX,
        all_clean(flush::all_strings(o)),
    ensures
        o.grows_to(flush::flush(o)),
        settled(flush::flush(o)),
        flush::flush(o).consts == o.consts,
{
    let fin = flush::flush(o);
    law_flush(o);
    assert(o.img.grows_to(fin.img)) by {
        reveal(Out::grows_to);
    }
    layout::lemma_grows(o.img, fin.img);
    assert forall|k: int| 0 <= k < fin.def.string_arrays.len() implies lists_texts(
        fin,
        target(fin, (#[trigger] fin.def.string_arrays[k]).0),
        fin.def.string_arrays[k].1,
    ) by {
        let (p, v) = o.def.string_arrays[k];
        assert(rows_texts(fin, target(fin, p), v));
        assert forall|j: int| 0 <= j < v.len() implies clean(#[trigger] v[j]) by {
            lemma_due_clean(fin, target(fin, p) + ptrs(fin.ps(), j), v[j]);
        }
    }
    assert forall|k: int| 0 <= k < fin.def.reg_params.len() implies lists_params(
        fin,
        target(fin, (#[trigger] fin.def.reg_params[k]).0),
        fin.def.reg_params[k].1,
    ) by {
        let (p, v) = o.def.reg_params[k];
        assert(rows_params(fin, target(fin, p), v));
        assert forall|j: int| 0 <= j < v.len() implies clean((#[trigger] v[j]).1) by {
            lemma_due_clean(fin, target(fin, p) + ptrs(fin.ps(), 2 * j + 1), v[j].1);
        }
    }
    reveal(settled);
}

proof fn lemma_due_clean(fin: Out, p: int, s: Seq<char>)
    requires
        due(fin, p, s),
        all_clean(fin.def.strings),
    ensures
        clean(s),
{
    let k = choose|k: int|
        0 <= k < fin.def.strings.len() && #[trigger] fin.def.strings[k] == (p, s);
    assert(clean(fin.def.strings[k].1));
}

proof fn lemma_place_params_keep(o: Out, n: nat)
    ensures
        flush::place_all_params(o, n).def.ptr_arrays == o.def.ptr_arrays,
        flush::place_all_params(o, n).def.string_arrays == o.def.string_arrays,
    decreases n,
{
    if n > 0 {
        lemma_place_params_keep(o, (n - 1) as nat);
        let e = o.def.reg_params[n - 1];
        lemma_reg_texts_keep(
            flush::place_all_params(o, (n - 1) as nat).align_ptr(),
            e.1,
            e.1.len(),
        );
    }
}

proof fn lemma_reg_texts_keep(o: Out, v: Seq<(u32, Seq<char>)>, n: nat)
    ensures
        flush::reg_texts(o, v, n).def.ptr_arrays == o.def.ptr_arrays,
        flush::reg_texts(o, v, n).def.string_arrays == o.def.string_arrays,
    decreases n,
{
    if n > 0 {
        lemma_reg_texts_keep(o, v, (n - 1) as nat);
    }
}

} // verus!
