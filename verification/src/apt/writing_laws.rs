//! What stands in a written file where a model says nothing: readers pass over it, but the
//! player does not.
use super::file_format::{
    address, fits, group_words, lemma_fit, lemma_fits, lemma_next, next, wide, word,
};
use super::file_laws;
use super::model;
use super::out::{self, Out};
use super::readback::{self, here, settled, src};
use super::readback_movie;
use super::writing;
use vstd::prelude::*;

verus! {

proof fn lemma_minus_one(w: u32)
    ensures
        (w as i32) == -1 ==> w == 0xFFFF_FFFF,
{
    assert((w as i32) == -1i32 ==> w == 0xFFFF_FFFFu32) by (bit_vector);
}

/// A placement that does not say so has no character and masks nothing, which is -1 for
/// both, moves nothing, changes no color and has no ratio. Its depth stands behind
/// its flags in any case.
pub proof fn law_unsaid(o: Out, p: model::PlaceObject, fin: Out)
    requires
        settled(fin),
        o.ok(),
        fin.len() <= i64::MAX,
        fits(o.len(), fin.ps()),
        writing::place_head(o, p).ptr_slot().grows_to(fin),
    ensures
        ({
            let d = fin.img.bytes;
            let q = o.len();
            &&& word(d, q + 4) as i32 == p.depth
            &&& p.character_id is None ==> word(d, q + 8) == 0xFFFF_FFFF
            &&& p.matrix is None ==> {
                &&& word(d, q + 12) == 0x3F80_0000
                &&& word(d, q + 16) == 0
                &&& word(d, q + 20) == 0
                &&& word(d, q + 24) == 0x3F80_0000
                &&& word(d, q + 28) == 0
                &&& word(d, q + 32) == 0
            }
            &&& p.cxform is None ==> word(d, q + 36) == 0xFEFE_FEFE && word(d, q + 40) == 0
            &&& p.ratio is None ==> word(d, q + 44) == 0
            &&& p.clip_depth is None ==> word(d, q + 48 + wide(fin.ps(), 1)) == 0xFFFF_FFFF
        }),
{
    readback::settled_facts(fin);
    let name = readback_movie::lemma_place_head(o, p, fin);
    file_laws::lemma_place_head(src(fin), here(o));
    let d = fin.img.bytes;
    let q = o.len();
    lemma_minus_one(word(d, q + 8));
    lemma_minus_one(word(d, q + 48 + wide(fin.ps(), 1)));
}

/// Every character starts with the number of its kind and a fixed mark that the player
/// puts its parent in; in files of separate images a word for the image and an empty
/// pointer follow.
pub proof fn law_prelude(o: Out, decoupled: bool, kind: i32, data: u32, fin: Out)
    requires
        settled(fin),
        o.ok(),
        fin.len() <= i64::MAX,
        writing::char_prelude(o, decoupled, kind, data).grows_to(fin),
    ensures
        ({
            let d = fin.img.bytes;
            let ps = fin.ps();
            let q = next(o.len(), ps);
            &&& word(d, q) as i32 == kind
            &&& address(d, q + wide(ps, 1), ps) == 0x0987_6543
            &&& decoupled ==> word(d, q + wide(ps, 2)) == data
            &&& decoupled ==> address(d, q + wide(ps, 3), ps) == 0
            &&& writing::char_prelude(o, decoupled, kind, data).len() == q + if decoupled {
                wide(ps, 4)
            } else {
                wide(ps, 2)
            }
        }),
{
    broadcast use readback::group_back, out::group_ext, group_words;

    readback::settled_facts(fin);
    let ps = fin.ps();
    let x = src(fin);
    let a = o.align_ptr();
    let b = a.put_i32(kind);
    let c = b.ptr_value(0x0987_6543);
    let e = c.put(4, data as nat);
    let f = e.ptr_value(0);
    let all = writing::char_prelude(o, decoupled, kind, data);
    assert(all == if decoupled {
        f
    } else {
        c
    });
    assert(a.ok());
    assert(b.ok());
    assert(c.ok());
    if decoupled {
        assert(e.grows_to(fin));
        assert(x.u32(here(c)) == (data, here(e)));
        assert(x.ptr(here(e)).0 == 0);
    }
    assert(c.grows_to(fin));
    assert(b.grows_to(fin));
    assert(a.grows_to(fin));
    lemma_next(o.len(), ps);
    lemma_fit(o.len(), ps);
    let q = next(o.len(), ps);
    assert(a.len() == q);
    assert(x.i32(here(a)).0 == kind);
    lemma_fits(q, 4, ps);
    assert(x.ptr(here(b)).0 == 0x0987_6543);
    lemma_next(b.len(), ps);
    assert(c.len() == q + wide(ps, 2));
    lemma_fits(q + wide(ps, 2), 4, ps);
    lemma_next(e.len(), ps);
}

/// Shapes, sounds and bitmaps end with a pointer-wide slot that holds their own place
/// among the characters: images and geometry are found by it.
pub proof fn law_own_place(o: Out, decoupled: bool, c: model::Character, index: nat, fin: Out)
    requires
        settled(fin),
        o.ok(),
        fin.len() <= i64::MAX,
        index < 0x1_0000_0000,
        c is Shape || c is Sound || c is Bitmap,
        writing::character(o, decoupled, c, index).grows_to(fin),
    ensures
        ({
            let ps = fin.ps();
            let q = next(o.len(), ps) + if decoupled {
                wide(ps, 4)
            } else {
                wide(ps, 2)
            } + if c is Shape {
                16int
            } else {
                0
            };
            address(fin.img.bytes, q, ps) == index
        }),
{
    broadcast use readback::group_back, out::group_ext, group_words;

    reveal(writing::character);
    readback::settled_facts(fin);
    let ps = fin.ps();
    let x = src(fin);
    let data = writing::decoupled_data(c);
    let a = writing::char_prelude(o, decoupled, c.type_id(), data);
    lemma_prelude_ok(o, decoupled, c.type_id(), data);
    let b = if let model::Character::Shape(s) = c {
        let r = s.bounds;
        let b1 = a.put(4, r.left as nat);
        let b2 = b1.put(4, r.top as nat);
        let b3 = b2.put(4, r.right as nat);
        let b4 = b3.put(4, r.bottom as nat);
        assert(b1.ok());
        assert(b2.ok());
        assert(b3.ok());
        assert(b4.ok());
        assert(writing::rect(a, r) == b4);
        assert(b4.grows_to(fin));
        assert(b3.grows_to(fin));
        assert(b2.grows_to(fin));
        assert(b1.grows_to(fin));
        b4
    } else {
        a
    };
    assert(b.ptr_value(index).grows_to(fin));
    assert(b.grows_to(fin));
    assert(a.grows_to(fin));
    law_prelude(o, decoupled, c.type_id(), data, fin);
    assert(x.ptr(here(b)).0 == index);
    lemma_fit(o.len(), ps);
    let q = next(o.len(), ps);
    lemma_fits(q, 16, ps);
    lemma_fits(q + wide(ps, 2), 16, ps);
    lemma_fits(q + wide(ps, 4), 16, ps);
}

proof fn lemma_prelude_ok(o: Out, decoupled: bool, kind: i32, data: u32)
    requires
        o.ok(),
    ensures
        writing::char_prelude(o, decoupled, kind, data).ok(),
{
    broadcast use out::group_ext;

    let a = o.align_ptr();
    let b = a.put_i32(kind);
    let c = b.ptr_value(0x0987_6543);
    let e = c.put(4, data as nat);
    let f = e.ptr_value(0);
    assert(a.ok());
    assert(b.ok());
    assert(c.ok());
    assert(e.ok());
    assert(f.ok());
}

} // verus!
