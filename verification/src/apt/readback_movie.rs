//! Reading back movies.
use super::bytes::round_up;
use super::decode;
use super::encode;
use super::flush::ptrs;
use super::growth;
use super::model;
use super::out::{self, Out};
use super::parsing::{self, Px};
use super::readback::{self, here, limit, settled, src, target};
use super::readback_actions::{self, ctx, storable_stream};
use super::reader::{items, reps, Rd};
use super::rows::{self, row};
use super::types::{GlyphEntry, Matrix, Rect, Shape, TextAlignment};
use super::writing;
use vstd::prelude::*;

verus! {

/// A filter that a file can hold as it is.
pub open spec fn storable_filter(f: model::Filter) -> bool {
    match f {
        model::Filter::GradientGlow { colors, .. } => colors.len() <= u32::MAX,
        model::Filter::ColorMatrix { values } => values.len() == 20,
        _ => true,
    }
}

/// A placement that a file can hold as it is: -1 stands for no blend mode.
pub open spec fn storable_place(p: model::PlaceObject, ps: nat) -> bool {
    &&& p.filters.len() <= u32::MAX
    &&& forall|i: int| 0 <= i < p.filters.len() ==> storable_filter(#[trigger] p.filters[i])
    &&& p.blend_mode matches Some(m) ==> m != -1
    &&& p.clip_actions matches Some(v) ==> {
        &&& v.len() <= i32::MAX
        &&& forall|i: int| 0 <= i < v.len() ==> storable_stream((#[trigger] v[i]).actions, ps)
    }
}

/// A control that a file with pointers of `ps` bytes can hold as it is.
pub open spec fn storable_control(c: model::Control, ps: nat) -> bool {
    match c {
        model::Control::Action(s) => storable_stream(s, ps),
        model::Control::InitAction { actions, .. } => storable_stream(actions, ps),
        model::Control::PlaceObject(p) => storable_place(p, ps),
        _ => true,
    }
}

/// A frame that a file with pointers of `ps` bytes can hold as it is.
pub open spec fn storable_frame(f: model::Frame, ps: nat) -> bool {
    &&& f.controls.len() <= i32::MAX
    &&& forall|i: int| 0 <= i < f.controls.len() ==> storable_control(#[trigger] f.controls[i], ps)
}

/// Frames that a file can hold as they are.
pub open spec fn storable_frames(v: Seq<model::Frame>, ps: nat) -> bool {
    &&& v.len() <= i32::MAX
    &&& forall|i: int| 0 <= i < v.len() ==> storable_frame(#[trigger] v[i], ps)
}

/// A button that a file can hold as it is.
pub open spec fn storable_button(b: model::Button, ps: nat) -> bool {
    &&& growth::button_shaped(b)
    &&& b.hit_test_vertices.len() <= i32::MAX
    &&& b.hit_test_triangles.len() <= i32::MAX
    &&& forall|i: int|
        0 <= i < b.hit_test_triangles.len() ==> (#[trigger] b.hit_test_triangles[i]).len() == 3
    &&& b.records.len() <= i32::MAX
    &&& b.actions.len() <= i32::MAX
    &&& forall|i: int|
        0 <= i < b.actions.len() ==> storable_stream((#[trigger] b.actions[i]).actions, ps)
}

/// A text that a file can hold as it is.
pub open spec fn storable_text(t: model::StaticText) -> bool {
    &&& growth::text_shaped(t.records)
    &&& t.records.len() <= i32::MAX
    &&& forall|i: int| 0 <= i < t.records.len() ==> (#[trigger] t.records[i]).glyphs.len() <= i32::MAX
}

/// A character that a file can hold as it is.
pub open spec fn storable_character(c: model::Character, ps: nat) -> bool {
    match c {
        model::Character::Font(f) => f.glyphs.len() <= i32::MAX,
        model::Character::Button(b) => storable_button(b, ps),
        model::Character::Sprite(f) => storable_frames(f, ps),
        model::Character::StaticText(t) => storable_text(t),
        _ => true,
    }
}

/// Character slots that a file can hold as they are: the first one is the root.
pub open spec fn storable_slots(v: Seq<model::CharacterSlot>, ps: nat) -> bool {
    &&& v.len() <= i32::MAX
    &&& 0 < v.len() ==> !(v[0] is Character)
    &&& forall|i: int|
        0 <= i < v.len() ==> (#[trigger] v[i] matches model::CharacterSlot::Character(c)
            ==> storable_character(c, ps))
}

/// A movie that a file with pointers of `ps` bytes can hold as it is.
pub open spec fn storable_movie(m: model::Movie, ps: nat) -> bool {
    &&& storable_frames(m.frames, ps)
    &&& storable_slots(m.characters, ps)
    &&& m.imports.len() <= i32::MAX
    &&& m.exports.len() <= i32::MAX
}

proof fn lemma_rect(o: Out, r: Rect, fin: Out)
    requires
        settled(fin),
        o.ok(),
        writing::rect(o, r).grows_to(fin),
    ensures
        o.grows_to(fin),
        writing::rect(o, r).ok(),
        writing::rect(o, r).len() == o.len() + 16,
        parsing::rect(src(fin), here(o)) == (r, here(writing::rect(o, r))),
{
    broadcast use readback::group_back, out::group_ext;

}

proof fn lemma_matrix(o: Out, m: Matrix, fin: Out)
    requires
        settled(fin),
        o.ok(),
        writing::matrix(o, m).grows_to(fin),
    ensures
        o.grows_to(fin),
        writing::matrix(o, m).ok(),
        writing::matrix(o, m).len() == o.len() + 24,
        parsing::matrix(src(fin), here(o)) == (m, here(writing::matrix(o, m))),
{
    broadcast use readback::group_back, out::group_ext;

}

proof fn lemma_float_cxform(o: Out, c: model::FloatCxForm, fin: Out)
    requires
        settled(fin),
        o.ok(),
        c.scale.len() == 4,
        c.translate.len() == 4,
        writing::float_cxform(o, c).grows_to(fin),
    ensures
        o.grows_to(fin),
        writing::float_cxform(o, c).ok(),
        parsing::float_cxform(src(fin), here(o)) == (c, here(writing::float_cxform(o, c))),
{
    growth::lemma_words(o, c.scale, 4);
    let a = writing::words(o, c.scale, 4);
    out::ext_facts(o, a);
    lemma_words(a, c.translate, 4, fin);
    lemma_words(o, c.scale, 4, fin);
    reveal_with_fuel(reps, 5);
    let p = reps(parsing::u32_step(src(fin)), here(o), 4);
    let q = reps(parsing::u32_step(src(fin)), here(a), 4);
    assert(p.0 =~= c.scale);
    assert(q.0 =~= c.translate);
    let got = parsing::float_cxform(src(fin), here(o)).0;
    assert(got.scale =~= c.scale);
    assert(got.translate =~= c.translate);
}

proof fn lemma_words(o: Out, v: Seq<u32>, n: nat, fin: Out)
    requires
        settled(fin),
        o.ok(),
        n <= v.len(),
        writing::words(o, v, n).grows_to(fin),
    ensures
        o.grows_to(fin),
        writing::words(o, v, n).ok(),
        reps(parsing::u32_step(src(fin)), here(o), n) == (v.take(n as int), here(writing::words(o, v, n))),
    decreases n,
{
    broadcast use readback::group_back, out::group_ext;

    if n == 0 {
        assert(v.take(0) =~= Seq::<u32>::empty());
    } else {
        let m = (n - 1) as nat;
        growth::lemma_words(o, v, m);
        let a = writing::words(o, v, m);
        out::ext_facts(o, a);
        let x = v[m as int];
        assert(a.put(4, x as nat).grows_to(fin));
        lemma_words(o, v, m, fin);
        assert(v.take(n as int) =~= v.take(m as int).push(x));
        assert((parsing::u32_step(src(fin)))(here(a)) == (x, here(writing::words(o, v, n))));
    }
}

proof fn lemma_octets(o: Out, v: Seq<u8>, n: nat, fin: Out)
    requires
        settled(fin),
        o.ok(),
        n <= v.len(),
        writing::octets(o, v, n).grows_to(fin),
    ensures
        o.grows_to(fin),
        writing::octets(o, v, n).ok(),
        reps(parsing::u8_step(src(fin)), here(o), n) == (v.take(n as int), here(writing::octets(o, v, n))),
    decreases n,
{
    broadcast use readback::group_back, out::group_ext;

    if n == 0 {
        assert(v.take(0) =~= Seq::<u8>::empty());
    } else {
        let m = (n - 1) as nat;
        growth::lemma_octets(o, v, m);
        let a = writing::octets(o, v, m);
        out::ext_facts(o, a);
        let x = v[m as int];
        assert(a.put(1, x as nat).grows_to(fin));
        lemma_octets(o, v, m, fin);
        assert(v.take(n as int) =~= v.take(m as int).push(x));
        assert((parsing::u8_step(src(fin)))(here(a)) == (x, here(writing::octets(o, v, n))));
    }
}

proof fn lemma_vertices(o: Out, v: Seq<(u32, u32)>, n: nat, fin: Out)
    requires
        settled(fin),
        o.ok(),
        n <= v.len(),
        writing::vertices(o, v, n).grows_to(fin),
    ensures
        o.grows_to(fin),
        writing::vertices(o, v, n).ok(),
        reps(parsing::vertex_step(src(fin)), here(o), n) == (v.take(n as int), here(writing::vertices(o, v, n))),
    decreases n,
{
    broadcast use readback::group_back, out::group_ext;

    if n == 0 {
        assert(v.take(0) =~= Seq::<(u32, u32)>::empty());
    } else {
        let m = (n - 1) as nat;
        growth::lemma_vertices(o, v, m);
        let a = writing::vertices(o, v, m);
        out::ext_facts(o, a);
        let x = v[m as int];
        assert(a.put(4, x.0 as nat).put(4, x.1 as nat).grows_to(fin));
        assert(a.put(4, x.0 as nat).grows_to(fin));
        lemma_vertices(o, v, m, fin);
        assert(v.take(n as int) =~= v.take(m as int).push(x));
        assert((parsing::vertex_step(src(fin)))(here(a)) == (x, here(writing::vertices(o, v, n))));
    }
}

proof fn lemma_triangles(o: Out, v: Seq<Seq<i16>>, n: nat, fin: Out)
    requires
        settled(fin),
        o.ok(),
        n <= v.len(),
        writing::triangles(o, v, n).grows_to(fin),
        forall|i: int| 0 <= i < v.len() ==> (#[trigger] v[i]).len() == 3,
    ensures
        o.grows_to(fin),
        writing::triangles(o, v, n).ok(),
        reps(parsing::triangle_step(src(fin)), here(o), n) == (v.take(n as int), here(writing::triangles(o, v, n))),
    decreases n,
{
    broadcast use readback::group_back, out::group_ext;

    if n == 0 {
        assert(v.take(0) =~= Seq::<Seq<i16>>::empty());
    } else {
        let m = (n - 1) as nat;
        growth::lemma_triangles(o, v, m);
        let a = writing::triangles(o, v, m);
        out::ext_facts(o, a);
        let x = v[m as int];
        assert(a.put_i16(x[0]).put_i16(x[1]).put_i16(x[2]).grows_to(fin));
        assert(a.put_i16(x[0]).put_i16(x[1]).grows_to(fin));
        assert(a.put_i16(x[0]).grows_to(fin));
        assert(x =~= seq![x[0], x[1], x[2]]);
        lemma_triangles(o, v, m, fin);
        assert(v.take(n as int) =~= v.take(m as int).push(x));
        assert((parsing::triangle_step(src(fin)))(here(a)) == (x, here(writing::triangles(o, v, n))));
    }
}

proof fn lemma_glyphs(o: Out, v: Seq<GlyphEntry>, n: nat, fin: Out)
    requires
        settled(fin),
        o.ok(),
        n <= v.len(),
        writing::glyphs(o, v, n).grows_to(fin),
    ensures
        o.grows_to(fin),
        writing::glyphs(o, v, n).ok(),
        reps(parsing::glyph_step(src(fin)), here(o), n) == (v.take(n as int), here(writing::glyphs(o, v, n))),
    decreases n,
{
    broadcast use readback::group_back, out::group_ext;

    if n == 0 {
        assert(v.take(0) =~= Seq::<GlyphEntry>::empty());
    } else {
        let m = (n - 1) as nat;
        growth::lemma_glyphs(o, v, m);
        let a = writing::glyphs(o, v, m);
        out::ext_facts(o, a);
        let x = v[m as int];
        assert(a.put_i16(x.index).put_i16(x.advance).grows_to(fin));
        assert(a.put_i16(x.index).grows_to(fin));
        lemma_glyphs(o, v, m, fin);
        assert(v.take(n as int) =~= v.take(m as int).push(x));
        assert((parsing::glyph_step(src(fin)))(here(a)) == (x, here(writing::glyphs(o, v, n))));
    }
}

proof fn lemma_exports(o: Out, v: Seq<model::Export>, n: nat, fin: Out)
    requires
        settled(fin),
        o.ok(),
        n <= v.len(),
        writing::exports(o, v, n).grows_to(fin),
    ensures
        o.grows_to(fin),
        writing::exports(o, v, n).ok(),
        reps(parsing::export_step(src(fin)), here(o), n) == (v.take(n as int), here(writing::exports(o, v, n))),
    decreases n,
{
    broadcast use readback::group_back, out::group_ext;

    if n == 0 {
        assert(v.take(0) =~= Seq::<model::Export>::empty());
    } else {
        let m = (n - 1) as nat;
        growth::lemma_exports(o, v, m);
        let a = writing::exports(o, v, m);
        out::ext_facts(o, a);
        let x = v[m as int];
        let b = a.align_ptr();
        let c = b.text(x.name);
        assert(c.put(4, x.character_id as nat).grows_to(fin));
        assert(c.grows_to(fin));
        assert(b.grows_to(fin));
        lemma_exports(o, v, m, fin);
        assert(v.take(n as int) =~= v.take(m as int).push(x));
        assert((parsing::export_step(src(fin)))(here(a)) == (x, here(writing::exports(o, v, n))));
    }
}

proof fn lemma_imports(o: Out, v: Seq<model::Import>, n: nat, fin: Out)
    requires
        settled(fin),
        o.ok(),
        n <= v.len(),
        writing::imports(o, v, n).grows_to(fin),
    ensures
        o.grows_to(fin),
        writing::imports(o, v, n).ok(),
        reps(parsing::import_step(src(fin)), here(o), n) == (v.take(n as int), here(writing::imports(o, v, n))),
    decreases n,
{
    broadcast use readback::group_back, out::group_ext;

    if n == 0 {
        assert(v.take(0) =~= Seq::<model::Import>::empty());
    } else {
        let m = (n - 1) as nat;
        growth::lemma_imports(o, v, m);
        let a = writing::imports(o, v, m);
        out::ext_facts(o, a);
        let x = v[m as int];
        let b = a.align_ptr();
        let c = b.text(x.movie);
        let d = c.text(x.name);
        let e = d.put(4, x.character_id as nat);
        assert(e.ptr_value(0).grows_to(fin));
        assert(e.grows_to(fin));
        assert(d.grows_to(fin));
        assert(c.grows_to(fin));
        assert(b.grows_to(fin));
        lemma_imports(o, v, m, fin);
        assert(v.take(n as int) =~= v.take(m as int).push(x));
        assert((parsing::import_step(src(fin)))(here(a)) == (x, here(writing::imports(o, v, n))));
    }
}

proof fn lemma_records(o: Out, v: Seq<model::ButtonRecord>, n: nat, fin: Out)
    requires
        settled(fin),
        o.ok(),
        n <= v.len(),
        writing::button_records(o, v, n).grows_to(fin),
        forall|i: int|
            0 <= i < v.len() ==> (#[trigger] v[i]).cxform.scale.len() == 4
                && v[i].cxform.translate.len() == 4,
    ensures
        o.grows_to(fin),
        writing::button_records(o, v, n).ok(),
        reps(parsing::record_step(src(fin)), here(o), n) == (v.take(n as int), here(writing::button_records(o, v, n))),
    decreases n,
{
    broadcast use readback::group_back, out::group_ext;

    if n == 0 {
        assert(v.take(0) =~= Seq::<model::ButtonRecord>::empty());
    } else {
        let m = (n - 1) as nat;
        growth::lemma_button_records(o, v, m);
        let a = writing::button_records(o, v, m);
        out::ext_facts(o, a);
        let x = v[m as int];
        let b = a.align_ptr();
        let c = b.put_i32(x.states);
        let d = c.ptr_value(x.character_id as nat);
        let e = d.put_i32(x.layer);
        let f = writing::matrix(e, x.matrix);
        assert(e.ok());
        assert(f.ok());
        assert(writing::float_cxform(f, x.cxform).grows_to(fin));
        lemma_float_cxform(f, x.cxform, fin);
        lemma_matrix(e, x.matrix, fin);
        assert(d.grows_to(fin));
        assert(c.grows_to(fin));
        assert(b.grows_to(fin));
        lemma_records(o, v, m, fin);
        assert(v.take(n as int) =~= v.take(m as int).push(x));
        assert((parsing::record_step(src(fin)))(here(a)) == (x, here(writing::button_records(o, v, n))));
    }
}

#[verifier::rlimit(40)]
proof fn lemma_filter_body(a: Out, f: model::Filter, fin: Out)
    requires
        settled(fin),
        a.ok(),
        writing::filter_body(a, f).grows_to(fin),
        !(f is GradientGlow),
        storable_filter(f),
    ensures
        a.grows_to(fin),
        ({
            let s = src(fin);
            let c = here(a);
            match f {
                model::Filter::DropShadow { .. } => {
                    parsing::drop_shadow(s, c).0 == f && parsing::drop_shadow(s, c).1.err is None
                },
                model::Filter::Blur { .. } => {
                    parsing::blur(s, c).0 == f && parsing::blur(s, c).1.err is None
                },
                model::Filter::Glow { .. } => {
                    parsing::glow(s, c).0 == f && parsing::glow(s, c).1.err is None
                },
                model::Filter::Bevel { .. } => {
                    parsing::bevel(s, c).0 == f && parsing::bevel(s, c).1.err is None
                },
                model::Filter::ColorMatrix { .. } => {
                    parsing::color_matrix(s, c).0 == f && parsing::color_matrix(s, c).1.err is None
                },
                _ => true,
            }
        }),
{
    broadcast use readback::group_back, out::group_ext;

    reveal(writing::filter_body);
    match f {
        model::Filter::ColorMatrix { values } => {
            lemma_words(a, values, 20, fin);
            assert(values.take(20) =~= values);
        },
        _ => {},
    }
}

#[verifier::rlimit(40)]
proof fn lemma_gradient(a: Out, f: model::Filter, fin: Out)
    requires
        settled(fin),
        a.ok(),
        writing::filter_body(a, f).grows_to(fin),
        f is GradientGlow,
        storable_filter(f),
        writing::filter_err(f) is None,
    ensures
        a.grows_to(fin),
        parsing::gradient(src(fin), here(a), f->is_bevel).0 == f,
        parsing::gradient(src(fin), here(a), f->is_bevel).1.err is None,
{
    broadcast use readback::group_back, out::group_ext;

    reveal(writing::filter_body);
    if let model::Filter::GradientGlow {
        colors,
        ratios,
        blur_x,
        blur_y,
        angle,
        distance,
        strength,
        flags,
        ..
    } = f {
        let b = a.put(4, (colors.len() as u32) as nat);
        let c = b.ptr_slot();
        let c2 = c.ptr_slot();
        let d0 = c2.put(4, blur_x as nat).put(4, blur_y as nat).put(4, angle as nat).put(
            4,
            distance as nat,
        ).put(2, strength as nat).put(2, flags as nat);
        let d = d0.align(4);
        assert(b.ok());
        assert(b.extends_to(b.align_ptr()));
        assert(b.extends_to(c));
        assert(c.extends_to(c.align_ptr()));
        assert(c.extends_to(c2));
        assert(c2.extends_to(d));
        growth::lemma_words(d, colors, colors.len());
        let w = writing::words(d, colors, colors.len());
        assert(c.extends_to(w));
        let p = b.align_ptr().len();
        let q = c.align_ptr().len();
        assert(c.pending(p, a.ps()));
        assert(c2.pending(q, a.ps()));
        assert(w.pending(p, a.ps()) && w.pending(q, a.ps()));
        assert(p < q);
        let e = w.ptr_fill(p, d.len());
        assert(e.pending(q, a.ps()));
        growth::lemma_octets(e, ratios, ratios.len());
        let r = writing::octets(e, ratios, ratios.len());
        assert(r.pending(q, a.ps()));
        assert(r.ptr_fill(q, e.len()).grows_to(fin));
        readback::back_ptr_fill(r, q, e.len(), fin);
        lemma_octets(e, ratios, ratios.len(), fin);
        readback::back_ptr_fill(w, p, d.len(), fin);
        lemma_words(d, colors, colors.len(), fin);
        assert(colors.take(colors.len() as int) =~= colors);
        assert(ratios.take(ratios.len() as int) =~= ratios);
        assert(d0.grows_to(fin));
        assert(c2.grows_to(fin));
        assert(c.grows_to(fin));
        assert(b.grows_to(fin));
        assert(e.len() <= fin.len());
    }
}

/// Whether the filter `f` is found at `off`.
pub open spec fn filter_at(fin: Out, off: int, f: model::Filter) -> bool {
    let r = parsing::filter(src(fin), Rd { pos: off, err: None });
    r.0 == f && r.1.err is None
}

proof fn lemma_filter(o: Out, f: model::Filter, fin: Out)
    requires
        settled(fin),
        o.ok(),
        writing::filter(o, f).grows_to(fin),
        storable_filter(f),
        writing::filter_err(f) is None,
    ensures
        o.grows_to(fin),
        filter_at(fin, o.align_ptr().len(), f),
{
    broadcast use readback::group_back, out::group_ext;

    reveal(parsing::filter);
    let a = o.align_ptr();
    let b = a.put(4, f.filter_id() as nat);
    assert(b.ok());
    if f is GradientGlow {
        lemma_gradient(b, f, fin);
    } else {
        lemma_filter_body(b, f, fin);
    }
    assert(b.grows_to(fin));
    assert(a.grows_to(fin));
}

proof fn lemma_filters(o: Out, v: Seq<model::Filter>, slots: Seq<int>, n: nat, fin: Out)
    requires
        settled(fin),
        o.ok(),
        row(o, slots, 0),
        n <= v.len(),
        v.len() == slots.len(),
        writing::filters(o, v, slots, n).grows_to(fin),
        forall|i: int| 0 <= i < v.len() ==> storable_filter(#[trigger] v[i]),
        writing::filters_err(v, v.len()) is None,
    ensures
        o.grows_to(fin),
        forall|i: int|
            #![trigger v[i]]
            #![trigger slots[i]]
            0 <= i < n ==> filter_at(fin, target(fin, slots[i]), v[i]),
    decreases n,
{
    if n > 0 {
        let m = (n - 1) as nat;
        growth::lemma_filters_row(o, v, slots, m);
        let a = writing::filters(o, v, slots, m);
        let x = v[m as int];
        growth::lemma_filter(a, x);
        out::ok_ps(a);
        out::ext_align(a, a.ps());

        let b = writing::filter(a, x);
        out::ext_facts(a, b);
        rows::lemma_row_ext(a, b, slots, m as int);
        rows::lemma_row_at(b, slots, m as int);
        let place = a.align_ptr().len();
        readback::settled_facts(fin);
        readback::back_ptr_fill(b, slots[m as int], place, fin);
        if writing::filters_err(v, n) is Some {
            writing::lemma_filters_sticky(v, n, v.len());
        }
        lemma_filter(a, x, fin);
        lemma_filters(o, v, slots, m, fin);
    }
}

/// A row of pointers, each to one of the items.
proof fn lemma_filter_row(o: Out, v: Seq<model::Filter>, n: nat, fin: Out)
    requires
        settled(fin),
        o.ok(),
        n <= v.len(),
        writing::slot_row(o, n).0.grows_to(fin),
        forall|i: int|
            0 <= i < n ==> filter_at(
                fin,
                target(fin, #[trigger] writing::slot_row(o, n).1[i]),
                v[i],
            ),
    ensures
        o.grows_to(fin),
        reps(parsing::filter_step(src(fin)), here(o), n) == (v.take(n as int), here(writing::slot_row(o, n).0)),
    decreases n,
{
    broadcast use readback::group_back;

    if n == 0 {
        assert(v.take(0) =~= Seq::<model::Filter>::empty());
    } else {
        let m = (n - 1) as nat;
        growth::lemma_slot_row(o, m);
        let (a, s) = writing::slot_row(o, m);
        out::ext_facts(o, a);
        let t = writing::slot_row(o, n).1;
        assert(t == s.push(a.align_ptr().len()));
        assert(t[m as int] == a.align_ptr().len());
        assert(a.ptr_slot().grows_to(fin));
        assert forall|i: int| 0 <= i < m implies filter_at(
            fin,
            target(fin, #[trigger] s[i]),
            v[i],
        ) by {
            assert(t[i] == s[i]);
        }
        lemma_filter_row(o, v, m, fin);
        assert(v.take(n as int) =~= v.take(m as int).push(v[m as int]));
        assert((parsing::filter_step(src(fin)))(here(a)) == (v[m as int], here(writing::slot_row(o, n).0)));
    }
}

/// Whether the list of filters `v` is found at `off`.
pub open spec fn filters_at(fin: Out, off: int, v: Seq<model::Filter>) -> bool {
    let r = reps(parsing::filter_step(src(fin)), Rd { pos: off, err: None }, v.len());
    r.0 == v && r.1.err is None
}

proof fn lemma_filter_set(o: Out, v: Seq<model::Filter>, p: int, fin: Out)
    requires
        settled(fin),
        o.ok(),
        o.pending(p, o.ps()),
        writing::filter_set(o, v, p).grows_to(fin),
        forall|i: int| 0 <= i < v.len() ==> storable_filter(#[trigger] v[i]),
        writing::filters_err(v, v.len()) is None,
    ensures
        o.grows_to(fin),
        0 <= target(fin, p) <= limit(fin.ps()),
        filters_at(fin, target(fin, p), v),
{
    broadcast use readback::group_back, out::group_ext;

    let a = o.align_ptr();
    out::ext_refl(o);
    assert(o.extends_to(a));
    growth::lemma_slot_row(a, v.len());
    let (b, slots) = writing::slot_row(a, v.len());
    assert(b.pending(p, o.ps()));
    rows::lemma_row_other(b, slots, 0, p, a.len());
    let c = b.ptr_fill(p, a.len());
    lemma_filters(c, v, slots, v.len(), fin);
    readback::back_ptr_fill(b, p, a.len(), fin);
    lemma_filter_row(a, v, v.len(), fin);
    assert(v.take(v.len() as int) =~= v);
}

/// Whether the stream `s` is found at `off`.
pub open spec fn stream_at(fin: Out, off: int, s: Seq<model::Instruction>) -> bool {
    &&& 0 < off <= limit(fin.ps())
    &&& forall|c: Rd|
        c.err is None ==> #[trigger] decode::stream(ctx(fin), c, off as u64) == (s, c)
}

proof fn lemma_stream(o: Out, s: Seq<model::Instruction>, fin: Out)
    requires
        settled(fin),
        o.ok(),
        0 < o.len(),
        encode::stream(o, s).grows_to(fin),
        storable_stream(s, fin.ps()),
        encode::block_err(s) is None,
    ensures
        o.grows_to(fin),
        stream_at(fin, o.len(), s),
{
    readback_actions::lemma_stream(o, s, fin, here(o));
    out::grow_facts(o, fin);
    readback::settled_facts(fin);
    assert forall|c: Rd| c.err is None implies #[trigger] decode::stream(
        ctx(fin),
        c,
        o.len() as u64,
    ) == (s, c) by {
        readback_actions::lemma_stream(o, s, fin, c);
    }
}

pub open spec fn event_at(fin: Out, off: int, e: model::EventAction) -> bool {
    stream_at(fin, off, e.actions)
}

pub open spec fn action_at(fin: Out, off: int, e: model::ButtonAction) -> bool {
    stream_at(fin, off, e.actions)
}

proof fn lemma_event_streams(o: Out, v: Seq<model::EventAction>, slots: Seq<int>, n: nat, fin: Out)
    requires
        settled(fin),
        o.ok(),
        row(o, slots, 0),
        n <= v.len(),
        v.len() == slots.len(),
        writing::event_streams(o, v, slots, n).grows_to(fin),
        0 < o.len(),
        forall|i: int| 0 <= i < v.len() ==> storable_stream((#[trigger] v[i]).actions, fin.ps()),
        writing::events_err(v, v.len()) is None,
    ensures
        o.grows_to(fin),
        forall|i: int|
            #![trigger v[i]]
            #![trigger slots[i]]
            0 <= i < n ==> event_at(fin, target(fin, slots[i]), v[i]),
    decreases n,
{
    if n > 0 {
        let m = (n - 1) as nat;
        growth::lemma_event_streams_row(o, v, slots, m);
        let a = writing::event_streams(o, v, slots, m);
        let x = v[m as int];
        encode::lemma_block(a, x.actions, true);
        out::ok_ps(a);

        let b = encode::stream(a, x.actions);
        out::ext_facts(a, b);
        rows::lemma_row_ext(a, b, slots, m as int);
        rows::lemma_row_at(b, slots, m as int);
        let place = a.len();
        readback::settled_facts(fin);
        readback::back_ptr_fill(b, slots[m as int], place, fin);
        if writing::events_err(v, n) is Some {
            writing::lemma_events_sticky(v, n, v.len());
        }
        lemma_event_streams_len(o, v, slots, m);
        lemma_stream(a, x.actions, fin);
        lemma_event_streams(o, v, slots, m, fin);
    }
}

proof fn lemma_event_streams_len(o: Out, v: Seq<model::EventAction>, slots: Seq<int>, n: nat)
    requires
        o.ok(),
        row(o, slots, 0),
        n <= v.len(),
        v.len() == slots.len(),
    ensures
        o.len() <= writing::event_streams(o, v, slots, n).len(),
    decreases n,
{
    if n > 0 {
        let m = (n - 1) as nat;
        lemma_event_streams_len(o, v, slots, m);
        growth::lemma_event_streams_row(o, v, slots, m);
        let a = writing::event_streams(o, v, slots, m);
        encode::lemma_block(a, v[m as int].actions, true);
        let b = encode::stream(a, v[m as int].actions);
        out::ext_facts(a, b);
        rows::lemma_row_ext(a, b, slots, m as int);
        rows::lemma_row_fill(b, slots, m as int, a.len());
    }
}

proof fn lemma_action_streams(o: Out, v: Seq<model::ButtonAction>, slots: Seq<int>, n: nat, fin: Out)
    requires
        settled(fin),
        o.ok(),
        row(o, slots, 0),
        n <= v.len(),
        v.len() == slots.len(),
        writing::action_streams(o, v, slots, n).grows_to(fin),
        0 < o.len(),
        forall|i: int| 0 <= i < v.len() ==> storable_stream((#[trigger] v[i]).actions, fin.ps()),
        writing::actions_err(v, v.len()) is None,
    ensures
        o.grows_to(fin),
        forall|i: int|
            #![trigger v[i]]
            #![trigger slots[i]]
            0 <= i < n ==> action_at(fin, target(fin, slots[i]), v[i]),
    decreases n,
{
    if n > 0 {
        let m = (n - 1) as nat;
        growth::lemma_action_streams_row(o, v, slots, m);
        let a = writing::action_streams(o, v, slots, m);
        let x = v[m as int];
        encode::lemma_block(a, x.actions, true);
        out::ok_ps(a);

        let b = encode::stream(a, x.actions);
        out::ext_facts(a, b);
        rows::lemma_row_ext(a, b, slots, m as int);
        rows::lemma_row_at(b, slots, m as int);
        let place = a.len();
        readback::settled_facts(fin);
        readback::back_ptr_fill(b, slots[m as int], place, fin);
        if writing::actions_err(v, n) is Some {
            writing::lemma_actions_sticky(v, n, v.len());
        }
        lemma_action_streams_len(o, v, slots, m);
        lemma_stream(a, x.actions, fin);
        lemma_action_streams(o, v, slots, m, fin);
    }
}

proof fn lemma_action_streams_len(o: Out, v: Seq<model::ButtonAction>, slots: Seq<int>, n: nat)
    requires
        o.ok(),
        row(o, slots, 0),
        n <= v.len(),
        v.len() == slots.len(),
    ensures
        o.len() <= writing::action_streams(o, v, slots, n).len(),
    decreases n,
{
    if n > 0 {
        let m = (n - 1) as nat;
        lemma_action_streams_len(o, v, slots, m);
        growth::lemma_action_streams_row(o, v, slots, m);
        let a = writing::action_streams(o, v, slots, m);
        encode::lemma_block(a, v[m as int].actions, true);
        let b = encode::stream(a, v[m as int].actions);
        out::ext_facts(a, b);
        rows::lemma_row_ext(a, b, slots, m as int);
        rows::lemma_row_fill(b, slots, m as int, a.len());
    }
}

proof fn lemma_event_heads(o: Out, v: Seq<model::EventAction>, n: nat, fin: Out)
    requires
        settled(fin),
        o.ok(),
        n <= v.len(),
        writing::event_heads(o, v, n).0.grows_to(fin),
        forall|i: int|
            0 <= i < n ==> event_at(fin, target(fin, #[trigger] writing::event_heads(o, v, n).1[i]), v[i]),
    ensures
        o.grows_to(fin),
        reps(parsing::event_step(ctx(fin)), here(o), n) == (v.take(n as int), here(writing::event_heads(o, v, n).0)),
    decreases n,
{
    broadcast use readback::group_back, out::group_ext;

    if n == 0 {
        assert(v.take(0) =~= Seq::<model::EventAction>::empty());
    } else {
        let m = (n - 1) as nat;
        growth::lemma_event_heads(o, v, m);
        let (a, s) = writing::event_heads(o, v, m);
        out::ext_facts(o, a);
        let x = v[m as int];
        let t = writing::event_heads(o, v, n).1;
        let a1 = a.align_ptr();
        let a2 = a1.put_i32(x.triggers);
        let b = a2.put_i32(x.key_code);
        assert(b.ok());
        assert(b.ptr_slot().grows_to(fin));
        assert(b.grows_to(fin));
        assert(a2.grows_to(fin));
        assert(a1.grows_to(fin));
        assert(t == s.push(b.align_ptr().len()));
        assert(t[m as int] == b.align_ptr().len());
        assert(event_at(fin, target(fin, t[m as int]), x));
        assert forall|i: int| 0 <= i < m implies event_at(fin, target(fin, #[trigger] s[i]), v[i]) by {
            assert(t[i] == s[i]);
        }
        lemma_event_heads(o, v, m, fin);
        assert(v.take(n as int) =~= v.take(m as int).push(x));
        assert((parsing::event_step(ctx(fin)))(here(a)) == (x, here(writing::event_heads(o, v, n).0)));
    }
}

proof fn lemma_action_heads(o: Out, v: Seq<model::ButtonAction>, n: nat, fin: Out)
    requires
        settled(fin),
        o.ok(),
        n <= v.len(),
        writing::action_heads(o, v, n).0.grows_to(fin),
        forall|i: int|
            0 <= i < n ==> action_at(fin, target(fin, #[trigger] writing::action_heads(o, v, n).1[i]), v[i]),
    ensures
        o.grows_to(fin),
        reps(parsing::action_step(ctx(fin)), here(o), n) == (v.take(n as int), here(writing::action_heads(o, v, n).0)),
    decreases n,
{
    broadcast use readback::group_back, out::group_ext;

    if n == 0 {
        assert(v.take(0) =~= Seq::<model::ButtonAction>::empty());
    } else {
        let m = (n - 1) as nat;
        growth::lemma_action_heads(o, v, m);
        let (a, s) = writing::action_heads(o, v, m);
        out::ext_facts(o, a);
        let x = v[m as int];
        let t = writing::action_heads(o, v, n).1;
        let a1 = a.align_ptr();
        let b = a1.put_i32(x.conditions);
        assert(b.ok());
        assert(b.ptr_slot().grows_to(fin));
        assert(b.grows_to(fin));
        assert(a1.grows_to(fin));
        assert(t == s.push(b.align_ptr().len()));
        assert(t[m as int] == b.align_ptr().len());
        assert(action_at(fin, target(fin, t[m as int]), x));
        assert forall|i: int| 0 <= i < m implies action_at(fin, target(fin, #[trigger] s[i]), v[i]) by {
            assert(t[i] == s[i]);
        }
        lemma_action_heads(o, v, m, fin);
        assert(v.take(n as int) =~= v.take(m as int).push(x));
        assert((parsing::action_step(ctx(fin)))(here(a)) == (x, here(writing::action_heads(o, v, n).0)));
    }
}

/// Whether the set of clip event handlers `v` is found at `off`.
pub open spec fn events_at(fin: Out, off: int, v: Seq<model::EventAction>) -> bool {
    &&& 0 < off <= limit(fin.ps())
    &&& {
        let s = src(fin);
        let (n, d) = s.i32(Rd { pos: off, err: None });
        let (blocks, d) = s.ptr(d);
        let r = reps(parsing::event_step(ctx(fin)), d.at(blocks as int), items(n));
        r.0 == v && r.1.err is None
    }
}

proof fn lemma_event_set(o: Out, v: Seq<model::EventAction>, p: int, fin: Out)
    requires
        settled(fin),
        o.ok(),
        0 <= p < o.len(),
        o.pending(p, o.ps()),
        writing::event_set(o, v, p).grows_to(fin),
        v.len() <= i32::MAX,
        forall|i: int| 0 <= i < v.len() ==> storable_stream((#[trigger] v[i]).actions, fin.ps()),
        writing::events_err(v, v.len()) is None,
    ensures
        o.grows_to(fin),
        events_at(fin, target(fin, p), v),
{
    broadcast use readback::group_back, out::group_ext;

    out::ext_refl(o);
    let a = o.align_ptr();
    let b = a.put_i32(v.len() as i32);
    let b2 = b.ptr_slot();
    assert(o.extends_to(b));
    assert(b.extends_to(b.align_ptr()));
    assert(o.extends_to(b2));
    let q = b.align_ptr().len();
    assert(b2.pending(p, o.ps()));
    let b3 = b2.ptr_fill(p, a.len());
    assert(b3.pending(q, o.ps()));
    let c = b3.align_ptr();
    assert(b3.extends_to(c));
    growth::lemma_event_heads(c, v, v.len());
    let (d, slots) = writing::event_heads(c, v, v.len());
    assert(d.pending(q, o.ps()));
    assert(q < c.len());
    rows::lemma_row_other(d, slots, 0, q, c.len());
    let e = d.ptr_fill(q, c.len());
    lemma_event_streams(e, v, slots, v.len(), fin);
    readback::back_ptr_fill(d, q, c.len(), fin);
    lemma_event_heads(c, v, v.len(), fin);
    assert(b3.grows_to(fin));
    readback::back_ptr_fill(b2, p, a.len(), fin);
    assert(b.grows_to(fin));
    assert(a.grows_to(fin));
    assert(v.take(v.len() as int) =~= v);
}

proof fn lemma_place_flags(p: model::PlaceObject)
    ensures
        ({
            let f = writing::place_flags(p);
            &&& (f & 0x01 != 0) == p.is_move
            &&& (f & 0x02 != 0) == (p.character_id is Some)
            &&& (f & 0x04 != 0) == (p.matrix is Some)
            &&& (f & 0x08 != 0) == (p.cxform is Some)
            &&& (f & 0x10 != 0) == (p.ratio is Some)
            &&& (f & 0x20 != 0) == (p.name is Some)
            &&& (f & 0x40 != 0) == (p.clip_depth is Some)
            &&& (f & 0x80 != 0) == (p.clip_actions is Some)
        }),
{
    let f0: i32 = if p.is_move {
        0x01
    } else {
        0
    };
    let f1: i32 = if p.character_id is Some {
        0x02
    } else {
        0
    };
    let f2: i32 = if p.matrix is Some {
        0x04
    } else {
        0
    };
    let f3: i32 = if p.cxform is Some {
        0x08
    } else {
        0
    };
    let f4: i32 = if p.ratio is Some {
        0x10
    } else {
        0
    };
    let f5: i32 = if p.name is Some {
        0x20
    } else {
        0
    };
    let f6: i32 = if p.clip_depth is Some {
        0x40
    } else {
        0
    };
    let f7: i32 = if p.clip_actions is Some {
        0x80
    } else {
        0
    };
    let f = f0 | f1 | f2 | f3 | f4 | f5 | f6 | f7;
    assert((f & 0x01 != 0) == (f0 != 0) && (f & 0x02 != 0) == (f1 != 0) && (f & 0x04 != 0) == (f2
        != 0) && (f & 0x08 != 0) == (f3 != 0) && (f & 0x10 != 0) == (f4 != 0) && (f & 0x20 != 0)
        == (f5 != 0) && (f & 0x40 != 0) == (f6 != 0) && (f & 0x80 != 0) == (f7 != 0))
        by (bit_vector)
        requires
            f == f0 | f1 | f2 | f3 | f4 | f5 | f6 | f7,
            f0 == 0x01 || f0 == 0,
            f1 == 0x02 || f1 == 0,
            f2 == 0x04 || f2 == 0,
            f3 == 0x08 || f3 == 0,
            f4 == 0x10 || f4 == 0,
            f5 == 0x20 || f5 == 0,
            f6 == 0x40 || f6 == 0,
            f7 == 0x80 || f7 == 0,
    ;
}

/// What the fixed part of a placement says, read back.
pub open spec fn head_of(fin: Out, o: Out, p: model::PlaceObject, actions: u64, name: u64) -> parsing::PlaceHead {
    let cx = writing::or(p.cxform, super::types::identity_cxform());
    parsing::PlaceHead {
        flags: writing::place_flags(p),
        depth: p.depth,
        character_id: writing::or(p.character_id, (-1) as i32),
        matrix: writing::or(p.matrix, super::types::identity_matrix()),
        scale: cx.scale,
        bias: cx.bias,
        ratio: writing::or(p.ratio, 0),
        name,
        clip_depth: writing::or(p.clip_depth, (-1) as i32),
        actions,
    }
}

#[verifier::rlimit(60)]
pub proof fn lemma_place_head(o: Out, p: model::PlaceObject, fin: Out) -> (name: u64)
    requires
        settled(fin),
        o.ok(),
        writing::place_head(o, p).ptr_slot().grows_to(fin),
    ensures
        o.grows_to(fin),
        ({
            let a = writing::place_head(o, p);
            parsing::place_head(src(fin), here(o)) == (
                head_of(fin, o, p, target(fin, a.align_ptr().len()) as u64, name),
                here(a.ptr_slot()),
            )
        }),
        p.name matches Some(s) ==> name != 0 && forall|c: Rd|
            c.err is None ==> #[trigger] src(fin).string_at(c, name) == (s, c),
{
    broadcast use readback::group_back, out::group_ext;

    reveal(parsing::place_head);
    let cx = writing::or(p.cxform, super::types::identity_cxform());
    let m = writing::or(p.matrix, super::types::identity_matrix());
    let a0 = o.put_i32(writing::place_flags(p));
    let a1 = a0.put_i32(p.depth);
    let a2 = a1.put_i32(writing::or(p.character_id, (-1) as i32));
    let a3 = writing::matrix(a2, m);
    let a4 = a3.put(4, cx.scale as nat);
    let a5 = a4.put(4, cx.bias as nat);
    let a6 = a5.put(4, writing::or(p.ratio, 0) as nat);
    assert(a2.ok());
    assert(a3.ok());
    assert(a6.ok());
    let b = match p.name {
        Some(s) => a6.text(s),
        None => a6.ptr_value(0),
    };
    assert(b.ok());
    let c = b.put_i32(writing::or(p.clip_depth, (-1) as i32));
    assert(c == writing::place_head(o, p));
    assert(c.ptr_slot().grows_to(fin));
    assert(c.grows_to(fin));
    assert(b.grows_to(fin));
    let name = src(fin).ptr(here(a6)).0;
    if let Some(s) = p.name {
        readback::lemma_text_slot(a6, s, fin);
        let off = target(fin, round_up(a6.len(), a6.ps()));
        assert forall|c: Rd| c.err is None implies #[trigger] src(fin).string_at(c, name) == (
            s,
            c,
        ) by {
            readback::lemma_string_at(fin, off, s, c);
        }
    }
    assert(a6.grows_to(fin));
    assert(a5.grows_to(fin));
    assert(a4.grows_to(fin));
    assert(a3.grows_to(fin));
    lemma_matrix(a2, m, fin);
    assert(a1.grows_to(fin));
    assert(a0.grows_to(fin));
    name
}

/// What follows the fixed part of a placement.
proof fn lemma_place_tail(o: Out, p: model::PlaceObject, fin: Out)
    requires
        settled(fin),
        o.ok(),
        0 < o.len(),
        writing::place_object(o, p).grows_to(fin),
        storable_place(p, fin.ps()),
        writing::place_err(p) is None,
    ensures
        writing::place_head(o, p).ptr_slot().grows_to(fin),
        writing::place_head(o, p).ok(),
        ({
            let a = writing::place_head(o, p);
            let off = target(fin, a.align_ptr().len());
            &&& p.clip_actions matches Some(v) ==> events_at(fin, off, v)
            &&& {
                let r = parsing::place_extra(src(fin), here(a.ptr_slot()), p.is_place_object_3());
                r.0 == (p.blend_mode, p.filters) && r.1.err is None
            }
        }),
{
    broadcast use readback::group_back, out::group_ext;

    reveal(writing::place_object);
    growth::lemma_place_head(o, p);
    let a = writing::place_head(o, p);
    out::ext_refl(a);
    assert(a.extends_to(a.align_ptr()));
    let q = a.align_ptr().len();
    let b = a.ptr_slot();
    assert(a.extends_to(b));
    assert(b.pending(q, a.ps()));
    if p.is_place_object_3() {
        let b1 = b.put_i32(writing::or(p.blend_mode, (-1) as i32));
        let c = b1.put(4, (p.filters.len() as u32) as nat);
        assert(b.extends_to(c));
        assert(c.extends_to(c.align_ptr()));
        let c2 = c.ptr_slot();
        let r = c.align_ptr().len();
        assert(c.extends_to(c2));
        assert(c2.pending(q, a.ps()));
        assert(c2.pending(r, a.ps()));
        assert(q < r);
        let d = match p.clip_actions {
            Some(v) => writing::event_set(c2, v, q),
            None => c2,
        };
        if let Some(v) = p.clip_actions {
            growth::lemma_event_set_keeps(c2, v, q, r);
            growth::lemma_event_set(a, c2, v, q);
            out::ext_facts(a, d);
        }
        assert(d.ok() && d.pending(r, d.ps()) && d.ps() == a.ps());
        lemma_filter_set(d, p.filters, r, fin);
        if let Some(v) = p.clip_actions {
            lemma_event_set(c2, v, q, fin);
        }
        assert(c2.grows_to(fin));
        assert(c.grows_to(fin));
        assert(b1.grows_to(fin));
        assert(b.grows_to(fin));
    } else {
        if let Some(v) = p.clip_actions {
            lemma_event_set(b, v, q, fin);
        }
        assert(p.filters =~= Seq::<model::Filter>::empty());
    }
}

proof fn lemma_place_object(o: Out, p: model::PlaceObject, fin: Out)
    requires
        settled(fin),
        o.ok(),
        0 < o.len(),
        writing::place_object(o, p).grows_to(fin),
        storable_place(p, fin.ps()),
        writing::place_err(p) is None,
    ensures
        o.grows_to(fin),
        ({
            let r = parsing::place_object(ctx(fin), here(o), p.is_place_object_3());
            r.0 == p && r.1.err is None
        }),
{
    lemma_place_tail(o, p, fin);
    let name = lemma_place_head(o, p, fin);
    lemma_place_flags(p);
    reveal(parsing::place_object);
    let a = writing::place_head(o, p);
    let off = target(fin, a.align_ptr().len());
    let c = here(a.ptr_slot());
    let f = writing::place_flags(p);
    let got = parsing::clip_actions(ctx(fin), c, f, off as u64);
    assert(got.0 == p.clip_actions && got.1 == c);
    assert(parsing::place_object(ctx(fin), here(o), p.is_place_object_3()).0 =~= p);
}

/// A stream behind the slot that points to it.
proof fn lemma_stream_behind(o: Out, s: Seq<model::Instruction>, fin: Out)
    requires
        settled(fin),
        o.ok(),
        writing::stream_behind(o, s).grows_to(fin),
        storable_stream(s, fin.ps()),
        encode::block_err(s) is None,
    ensures
        o.grows_to(fin),
        ({
            let (off, c) = src(fin).ptr(here(o));
            c.err is None && decode::stream(ctx(fin), c, off) == (s, c)
        }),
{
    broadcast use readback::group_back, out::group_ext;

    growth::lemma_stream_behind(o, s);
    let a = o.ptr_slot();
    let b = encode::stream(a, s);
    let p = o.align_ptr().len();
    out::ext_facts(a, b);
    readback::back_ptr_fill(b, p, a.len(), fin);
    readback::lemma_back(a, b, fin);
    readback::back_ptr_slot(o, fin);
    lemma_stream(a, s, fin);
}

/// Whether the control `k` is found at `off`.
pub open spec fn control_at(fin: Out, off: int, k: model::Control) -> bool {
    let r = parsing::control(ctx(fin), Rd { pos: off, err: None });
    r.0 == k && r.1.err is None
}

proof fn lemma_control(o: Out, k: model::Control, fin: Out)
    requires
        settled(fin),
        o.ok(),
        0 < o.len(),
        writing::control(o, k).grows_to(fin),
        storable_control(k, fin.ps()),
        writing::control_err(k) is None,
    ensures
        o.grows_to(fin),
        control_at(fin, o.align_ptr().len(), k),
{
    broadcast use readback::group_back, out::group_ext;

    reveal(parsing::control);
    let a0 = o.align_ptr();
    let a1 = a0.put_i32(k.type_id());
    let a = a1.align_ptr();
    assert(a.ok() && 0 < a.len());
    match k {
        model::Control::Action(s) => {
            lemma_stream_behind(a, s, fin);
        },
        model::Control::PlaceObject(p) => {
            lemma_place_object(a, p, fin);
        },
        model::Control::InitAction { sprite_id, actions } => {
            assert(a.put_i32(sprite_id).ok());
            lemma_stream_behind(a.put_i32(sprite_id), actions, fin);
        },
        _ => {},
    }
    assert(a.grows_to(fin));
    assert(a1.grows_to(fin));
    assert(a0.grows_to(fin));
}

proof fn lemma_control_behind(o: Out, k: model::Control)
    requires
        o.ok(),
    ensures
        0 <= o.len() <= o.align_ptr().len() <= writing::control(o, k).len(),
{
    broadcast use out::group_ext;

    let a1 = o.align_ptr().put_i32(k.type_id());
    let a = a1.align_ptr();
    assert(a.ok());
    match k {
        model::Control::Action(s) => {
            growth::lemma_stream_behind(a, s);
        },
        model::Control::PlaceObject(p) => {
            growth::lemma_place_object(a, p);
        },
        model::Control::InitAction { sprite_id, actions } => {
            growth::lemma_stream_behind(a.put_i32(sprite_id), actions);
        },
        _ => {},
    }
}

proof fn lemma_controls(o: Out, v: Seq<model::Control>, slots: Seq<int>, n: nat, fin: Out)
    requires
        settled(fin),
        o.ok(),
        row(o, slots, 0),
        n <= v.len(),
        v.len() == slots.len(),
        writing::controls(o, v, slots, n).grows_to(fin),
        0 < o.len(),
        forall|i: int| 0 <= i < v.len() ==> storable_control(#[trigger] v[i], fin.ps()),
        writing::controls_err(v, v.len()) is None,
    ensures
        o.grows_to(fin),
        forall|i: int|
            #![trigger v[i]]
            #![trigger slots[i]]
            0 <= i < n ==> control_at(fin, target(fin, slots[i]), v[i]),
    decreases n,
{
    if n > 0 {
        let m = (n - 1) as nat;
        growth::lemma_controls_row(o, v, slots, m);
        let a = writing::controls(o, v, slots, m);
        let x = v[m as int];
        growth::lemma_control(a, x);
        lemma_control_behind(a, x);

        let b = writing::control(a, x);
        out::ext_facts(a, b);
        rows::lemma_row_ext(a, b, slots, m as int);
        rows::lemma_row_at(b, slots, m as int);
        let place = a.align_ptr().len();
        readback::settled_facts(fin);
        readback::back_ptr_fill(b, slots[m as int], place, fin);
        if writing::controls_err(v, n) is Some {
            writing::lemma_controls_sticky(v, n, v.len());
        }
        lemma_controls_len(o, v, slots, m);
        lemma_control(a, x, fin);
        lemma_controls(o, v, slots, m, fin);
    }
}

proof fn lemma_controls_len(o: Out, v: Seq<model::Control>, slots: Seq<int>, n: nat)
    requires
        o.ok(),
        row(o, slots, 0),
        n <= v.len(),
        v.len() == slots.len(),
    ensures
        o.len() <= writing::controls(o, v, slots, n).len(),
    decreases n,
{
    if n > 0 {
        let m = (n - 1) as nat;
        lemma_controls_len(o, v, slots, m);
        growth::lemma_controls_row(o, v, slots, m);
        let a = writing::controls(o, v, slots, m);
        growth::lemma_control(a, v[m as int]);
        let b = writing::control(a, v[m as int]);
        out::ext_facts(a, b);
        rows::lemma_row_ext(a, b, slots, m as int);
        rows::lemma_row_fill(b, slots, m as int, a.align_ptr().len());
    }
}

/// A row of pointers, each to one of the items.
proof fn lemma_control_row(o: Out, v: Seq<model::Control>, n: nat, fin: Out)
    requires
        settled(fin),
        o.ok(),
        n <= v.len(),
        writing::slot_row(o, n).0.grows_to(fin),
        forall|i: int|
            0 <= i < n ==> control_at(
                fin,
                target(fin, #[trigger] writing::slot_row(o, n).1[i]),
                v[i],
            ),
    ensures
        o.grows_to(fin),
        reps(parsing::control_step(ctx(fin)), here(o), n) == (v.take(n as int), here(writing::slot_row(o, n).0)),
    decreases n,
{
    broadcast use readback::group_back;

    if n == 0 {
        assert(v.take(0) =~= Seq::<model::Control>::empty());
    } else {
        let m = (n - 1) as nat;
        growth::lemma_slot_row(o, m);
        let (a, s) = writing::slot_row(o, m);
        out::ext_facts(o, a);
        let t = writing::slot_row(o, n).1;
        assert(t == s.push(a.align_ptr().len()));
        assert(t[m as int] == a.align_ptr().len());
        assert(a.ptr_slot().grows_to(fin));
        assert forall|i: int| 0 <= i < m implies control_at(
            fin,
            target(fin, #[trigger] s[i]),
            v[i],
        ) by {
            assert(t[i] == s[i]);
        }
        lemma_control_row(o, v, m, fin);
        assert(v.take(n as int) =~= v.take(m as int).push(v[m as int]));
        assert((parsing::control_step(ctx(fin)))(here(a)) == (v[m as int], here(writing::slot_row(o, n).0)));
    }
}

/// Whether the controls of the frame `f` are found at `off`.
pub open spec fn frame_at(fin: Out, off: int, f: model::Frame) -> bool {
    &&& 0 <= off <= limit(fin.ps())
    &&& {
        let r = reps(
            parsing::control_step(ctx(fin)),
            Rd { pos: off, err: None },
            f.controls.len(),
        );
        r.0 == f.controls && r.1.err is None
    }
}

proof fn lemma_frame_body(o: Out, f: model::Frame, p: int, fin: Out)
    requires
        settled(fin),
        o.ok(),
        0 < o.len(),
        o.pending(p, o.ps()),
        writing::frame_body(o, f, p).grows_to(fin),
        storable_frame(f, fin.ps()),
        writing::controls_err(f.controls, f.controls.len()) is None,
    ensures
        o.grows_to(fin),
        frame_at(fin, target(fin, p), f),
{
    broadcast use readback::group_back, out::group_ext;

    let v = f.controls;
    let a = o.align_ptr();
    out::ext_refl(o);
    assert(o.extends_to(a));
    growth::lemma_slot_row(a, v.len());
    let (b, slots) = writing::slot_row(a, v.len());
    assert(b.pending(p, o.ps()));
    rows::lemma_row_other(b, slots, 0, p, a.len());
    let c = b.ptr_fill(p, a.len());
    lemma_controls(c, v, slots, v.len(), fin);
    readback::back_ptr_fill(b, p, a.len(), fin);
    lemma_control_row(a, v, v.len(), fin);
    assert(v.take(v.len() as int) =~= v);
}

proof fn lemma_frame_bodies(o: Out, v: Seq<model::Frame>, slots: Seq<int>, n: nat, fin: Out)
    requires
        settled(fin),
        o.ok(),
        0 < o.len(),
        row(o, slots, 0),
        n <= v.len(),
        v.len() == slots.len(),
        writing::frame_bodies(o, v, slots, n).grows_to(fin),
        forall|i: int| 0 <= i < v.len() ==> storable_frame(#[trigger] v[i], fin.ps()),
        writing::frames_err(v, v.len()) is None,
    ensures
        o.grows_to(fin),
        forall|i: int|
            #![trigger v[i]]
            #![trigger slots[i]]
            0 <= i < n ==> frame_at(fin, target(fin, slots[i]), v[i]),
    decreases n,
{
    if n > 0 {
        let m = (n - 1) as nat;
        growth::lemma_frame_bodies_row(o, v, slots, m);
        let a = writing::frame_bodies(o, v, slots, m);
        let x = v[m as int];
        rows::lemma_row_at(a, slots, m as int);
        if writing::frames_err(v, n) is Some {
            writing::lemma_frames_sticky(v, n, v.len());
        }
        lemma_frame_body(a, x, slots[m as int], fin);
        lemma_frame_bodies(o, v, slots, m, fin);
    }
}

proof fn lemma_frame_heads(o: Out, v: Seq<model::Frame>, n: nat, fin: Out)
    requires
        settled(fin),
        o.ok(),
        n <= v.len(),
        writing::frame_heads(o, v, n).0.grows_to(fin),
        forall|i: int| 0 <= i < v.len() ==> storable_frame(#[trigger] v[i], fin.ps()),
        forall|i: int|
            0 <= i < n ==> frame_at(fin, target(fin, #[trigger] writing::frame_heads(o, v, n).1[i]), v[i]),
    ensures
        o.grows_to(fin),
        reps(parsing::frame_step(ctx(fin)), here(o), n) == (v.take(n as int), here(writing::frame_heads(o, v, n).0)),
    decreases n,
{
    broadcast use readback::group_back, out::group_ext;

    if n == 0 {
        assert(v.take(0) =~= Seq::<model::Frame>::empty());
    } else {
        let m = (n - 1) as nat;
        growth::lemma_frame_heads(o, v, m);
        let (a, s) = writing::frame_heads(o, v, m);
        out::ext_facts(o, a);
        let x = v[m as int];
        let t = writing::frame_heads(o, v, n).1;
        let a1 = a.align_ptr();
        let b = a1.put_i32(x.controls.len() as i32);
        assert(b.ok());
        assert(b.ptr_slot().grows_to(fin));
        assert(b.grows_to(fin));
        assert(a1.grows_to(fin));
        assert(t == s.push(b.align_ptr().len()));
        assert(t[m as int] == b.align_ptr().len());
        assert(frame_at(fin, target(fin, t[m as int]), x));
        assert forall|i: int| 0 <= i < m implies frame_at(fin, target(fin, #[trigger] s[i]), v[i]) by {
            assert(t[i] == s[i]);
        }
        lemma_frame_heads(o, v, m, fin);
        assert(v.take(n as int) =~= v.take(m as int).push(x));
        assert((parsing::frame_step(ctx(fin)))(here(a)) == (x, here(writing::frame_heads(o, v, n).0)));
    }
}

/// Whether the frames `v` are found at `off`.
pub open spec fn frames_at(fin: Out, off: int, v: Seq<model::Frame>) -> bool {
    &&& 0 <= off <= limit(fin.ps())
    &&& {
        let r = reps(parsing::frame_step(ctx(fin)), Rd { pos: off, err: None }, v.len());
        r.0 == v && r.1.err is None
    }
}

proof fn lemma_frames(o: Out, v: Seq<model::Frame>, fin: Out)
    requires
        settled(fin),
        o.ok(),
        0 < o.len(),
        writing::frames(o, v).grows_to(fin),
        storable_frames(v, fin.ps()),
        writing::frames_err(v, v.len()) is None,
    ensures
        o.grows_to(fin),
        frames_at(fin, writing::frames_place(o, v), v),
{
    broadcast use readback::group_back, out::group_ext;

    if v.len() == 0 {
        assert(v =~= Seq::<model::Frame>::empty());
    } else {
        let a = o.align_ptr();
        assert(a.ok());
        growth::lemma_frame_heads(a, v, v.len());
        let (b, slots) = writing::frame_heads(a, v, v.len());
        out::ext_facts(a, b);
        lemma_frame_bodies(b, v, slots, v.len(), fin);
        lemma_frame_heads(a, v, v.len(), fin);
        assert(v.take(v.len() as int) =~= v);
    }
}

proof fn lemma_button_sounds(o: Out, b: model::Button, p: int, fin: Out)
    requires
        settled(fin),
        o.ok(),
        0 < o.len(),
        o.pending(p, o.ps()),
        writing::button_sounds(o, b, p).grows_to(fin),
    ensures
        o.grows_to(fin),
        0 <= target(fin, p) <= limit(fin.ps()),
        forall|c: Rd|
            c.err is None ==> {
                let r = #[trigger] parsing::button_sounds(src(fin), c, target(fin, p) as u64);
                r.0 == b.sounds && r.1.err is None
            },
{
    broadcast use readback::group_back, out::group_ext;

    if b.sounds is None {
        readback::back_ptr_fill(o, p, 0, fin);
    } else {
    let s = b.sounds->0;
    out::ext_refl(o);
    let a = o.align_ptr();
    let a1 = a.ptr_value(s.over_up_to_idle as nat);
    let a2 = a1.ptr_value(s.idle_to_over_up as nat);
    let a3 = a2.ptr_value(s.over_up_to_over_down as nat);
    let a4 = a3.ptr_value(s.over_down_to_over_up as nat);
    assert(o.extends_to(a));
    assert(a.extends_to(a1));
    assert(a1.extends_to(a2));
    assert(a2.extends_to(a3));
    assert(a3.extends_to(a4));
    assert(a4.pending(p, o.ps()));
    readback::back_ptr_fill(a4, p, a.len(), fin);
    assert(a3.grows_to(fin));
    assert(a2.grows_to(fin));
    assert(a1.grows_to(fin));
    assert(a.grows_to(fin));
    }
}

/// The fixed part of a button.
#[verifier::rlimit(60)]
proof fn lemma_button_head(o: Out, b: model::Button, fin: Out)
    requires
        settled(fin),
        o.ok(),
        storable_button(b, fin.ps()),
        writing::button_head(o, b).0.grows_to(fin),
    ensures
        o.grows_to(fin),
        ({
            let s = src(fin);
            let p = writing::button_head(o, b).1;
            let (menu, c) = s.i32(here(o));
            let (bounds, c) = parsing::rect(s, c);
            let (n_triangles, c) = s.i32(c);
            let (n_vertices, c) = s.i32(c);
            let (vertices_off, c) = s.ptr(c);
            let (indices_off, c) = s.ptr(c);
            let (n_records, c) = s.i32(c);
            let (records_off, c) = s.ptr(c);
            let (n_conditions, c) = s.i32(c);
            let (conditions_off, c) = s.ptr(c);
            let (sound_off, c) = s.ptr(c);
            &&& (menu != 0) == b.is_menu
            &&& bounds == b.hit_test_bounds
            &&& items(n_triangles) == b.hit_test_triangles.len()
            &&& items(n_vertices) == b.hit_test_vertices.len()
            &&& items(n_records) == b.records.len()
            &&& items(n_conditions) == b.actions.len()
            &&& vertices_off == target(fin, p[0]) as u64
            &&& indices_off == target(fin, p[1]) as u64
            &&& records_off == target(fin, p[2]) as u64
            &&& conditions_off == target(fin, p[3]) as u64
            &&& sound_off == target(fin, p[4]) as u64
            &&& c.err is None
        }),
{
    broadcast use readback::group_back, out::group_ext;

    let menu: i32 = if b.is_menu {
        1
    } else {
        0
    };
    let a0 = o.put_i32(menu);
    assert(a0.ok());
    let r = writing::rect(a0, b.hit_test_bounds);
    assert(r.ok());
    let r1 = r.put_i32(b.hit_test_triangles.len() as i32);
    let a1 = r1.put_i32(b.hit_test_vertices.len() as i32);
    assert(a1.ok());
    let a2 = a1.ptr_slot();
    assert(a2.ok());
    let b2 = a2.ptr_slot();
    let a3 = b2.put_i32(b.records.len() as i32);
    assert(a3.ok());
    let b3 = a3.ptr_slot();
    let a4 = b3.put_i32(b.actions.len() as i32);
    assert(a4.ok());
    let a5 = a4.ptr_slot();
    assert(a5.ok());
    assert(a5.ptr_slot().grows_to(fin));
    assert(a5.grows_to(fin));
    assert(a4.grows_to(fin));
    assert(b3.grows_to(fin));
    assert(a3.grows_to(fin));
    assert(b2.grows_to(fin));
    assert(a2.grows_to(fin));
    assert(a1.grows_to(fin));
    assert(r1.grows_to(fin));
    assert(r.grows_to(fin));
    lemma_rect(a0, b.hit_test_bounds, fin);
    assert(a0.grows_to(fin));
}

/// A button up to its records.
pub open spec fn button_mesh(o: Out, b: model::Button) -> Out {
    let (h, p) = writing::button_head(o, b);
    let v = h.align(4);
    let v2 = writing::vertices(v, b.hit_test_vertices, b.hit_test_vertices.len()).ptr_fill(
        p[0],
        v.len(),
    );
    let t = v2.align(2);
    let t2 = writing::triangles(t, b.hit_test_triangles, b.hit_test_triangles.len()).ptr_fill(
        p[1],
        t.len(),
    );
    let r = t2.align_ptr();
    writing::button_records(r, b.records, b.records.len()).ptr_fill(p[2], r.len())
}

proof fn lemma_button_mesh_row(o: Out, b: model::Button)
    requires
        o.ok(),
        growth::button_shaped(b),
    ensures
        button_mesh(o, b).ok(),
        row(button_mesh(o, b), writing::button_head(o, b).1, 3),
        writing::button_head(o, b).1.len() == 5,
        o.len() <= button_mesh(o, b).len(),
{
    broadcast use out::group_ext;

    growth::lemma_button_head(o, b);
    let (h, p) = writing::button_head(o, b);
    out::ext_facts(o, h);
    let v = h.align(4);
    let v1 = writing::vertices(v, b.hit_test_vertices, b.hit_test_vertices.len());
    growth::lemma_vertices(v, b.hit_test_vertices, b.hit_test_vertices.len());
    assert(h.extends_to(v1));
    rows::lemma_row_ext(h, v1, p, 0);
    rows::lemma_row_fill(v1, p, 0, v.len());
    let v2 = v1.ptr_fill(p[0], v.len());
    let t = v2.align(2);
    let t1 = writing::triangles(t, b.hit_test_triangles, b.hit_test_triangles.len());
    growth::lemma_triangles(t, b.hit_test_triangles, b.hit_test_triangles.len());
    assert(v2.extends_to(t1));
    rows::lemma_row_ext(v2, t1, p, 1);
    rows::lemma_row_fill(t1, p, 1, t.len());
    let t2 = t1.ptr_fill(p[1], t.len());
    let r = t2.align_ptr();
    let r1 = writing::button_records(r, b.records, b.records.len());
    growth::lemma_button_records(r, b.records, b.records.len());
    assert(t2.extends_to(r1));
    rows::lemma_row_ext(t2, r1, p, 2);
    rows::lemma_row_fill(r1, p, 2, r.len());
}

/// Whether the mesh and the records of a button are found behind its slots.
pub open spec fn mesh_at(fin: Out, b: model::Button, p: Seq<int>) -> bool {
    &&& 0 <= target(fin, p[0]) <= limit(fin.ps())
    &&& 0 <= target(fin, p[1]) <= limit(fin.ps())
    &&& 0 <= target(fin, p[2]) <= limit(fin.ps())
    &&& {
        let r = reps(
            parsing::vertex_step(src(fin)),
            Rd { pos: target(fin, p[0]), err: None },
            b.hit_test_vertices.len(),
        );
        r.0 == b.hit_test_vertices && r.1.err is None
    }
    &&& {
        let r = reps(
            parsing::triangle_step(src(fin)),
            Rd { pos: target(fin, p[1]), err: None },
            b.hit_test_triangles.len(),
        );
        r.0 == b.hit_test_triangles && r.1.err is None
    }
    &&& {
        let r = reps(
            parsing::record_step(src(fin)),
            Rd { pos: target(fin, p[2]), err: None },
            b.records.len(),
        );
        r.0 == b.records && r.1.err is None
    }
}

#[verifier::rlimit(60)]
proof fn lemma_button_mesh(o: Out, b: model::Button, fin: Out)
    requires
        settled(fin),
        o.ok(),
        storable_button(b, fin.ps()),
        button_mesh(o, b).grows_to(fin),
    ensures
        writing::button_head(o, b).0.grows_to(fin),
        mesh_at(fin, b, writing::button_head(o, b).1),
{
    readback::settled_facts(fin);
    growth::lemma_button_head(o, b);
    let (h, p) = writing::button_head(o, b);
    out::ext_facts(o, h);
    let v = h.align(4);
    out::ext_align(h, 4);
    out::ext_facts(h, v);
    let v1 = writing::vertices(v, b.hit_test_vertices, b.hit_test_vertices.len());
    growth::lemma_vertices(v, b.hit_test_vertices, b.hit_test_vertices.len());
    out::ext_facts(v, v1);
    out::ext_trans(h, v, v1);
    rows::lemma_row_ext(h, v1, p, 0);
    rows::lemma_row_at(v1, p, 0);
    rows::lemma_row_fill(v1, p, 0, v.len());
    let v2 = v1.ptr_fill(p[0], v.len());
    let t = v2.align(2);
    out::ext_align(v2, 2);
    out::ext_facts(v2, t);
    let t1 = writing::triangles(t, b.hit_test_triangles, b.hit_test_triangles.len());
    growth::lemma_triangles(t, b.hit_test_triangles, b.hit_test_triangles.len());
    out::ext_facts(t, t1);
    out::ext_trans(v2, t, t1);
    rows::lemma_row_ext(v2, t1, p, 1);
    rows::lemma_row_at(t1, p, 1);
    rows::lemma_row_fill(t1, p, 1, t.len());
    let t2 = t1.ptr_fill(p[1], t.len());
    let r = t2.align_ptr();
    out::ok_ps(t2);
    out::ext_align(t2, t2.ps());
    out::ext_facts(t2, r);
    let r1 = writing::button_records(r, b.records, b.records.len());
    growth::lemma_button_records(r, b.records, b.records.len());
    out::ext_facts(r, r1);
    out::ext_trans(t2, r, r1);
    rows::lemma_row_ext(t2, r1, p, 2);
    rows::lemma_row_at(r1, p, 2);
    // And back again.
    readback::back_ptr_fill(r1, p[2], r.len(), fin);
    lemma_records(r, b.records, b.records.len(), fin);
    readback::back_align_ptr(t2, fin);
    readback::back_ptr_fill(t1, p[1], t.len(), fin);
    lemma_triangles(t, b.hit_test_triangles, b.hit_test_triangles.len(), fin);
    readback::back_align(v2, 2, fin);
    readback::back_ptr_fill(v1, p[0], v.len(), fin);
    lemma_vertices(v, b.hit_test_vertices, b.hit_test_vertices.len(), fin);
    readback::back_align(h, 4, fin);
    assert(b.hit_test_vertices.take(b.hit_test_vertices.len() as int) =~= b.hit_test_vertices);
    assert(b.hit_test_triangles.take(b.hit_test_triangles.len() as int) =~= b.hit_test_triangles);
    assert(b.records.take(b.records.len() as int) =~= b.records);
}

#[verifier::rlimit(40)]
proof fn lemma_button(o: Out, b: model::Button, fin: Out)
    requires
        settled(fin),
        o.ok(),
        0 < o.len(),
        storable_button(b, fin.ps()),
        writing::actions_err(b.actions, b.actions.len()) is None,
        writing::button(o, b).grows_to(fin),
    ensures
        o.grows_to(fin),
        parsing::button(ctx(fin), here(o)).0 == b,
        parsing::button(ctx(fin), here(o)).1.err is None,
{
    readback::settled_facts(fin);
    let p = writing::button_head(o, b).1;
    let r2 = button_mesh(o, b);
    lemma_button_mesh_row(o, b);
    let c = r2.align_ptr();
    out::ok_ps(r2);
    out::ext_align(r2, r2.ps());
    out::ext_facts(r2, c);
    growth::lemma_action_heads(c, b.actions, b.actions.len());
    let (c2, own) = writing::action_heads(c, b.actions, b.actions.len());
    out::ext_facts(c, c2);
    out::ext_trans(r2, c, c2);
    assert forall|j: int| 0 <= j < p.len() implies #[trigger] p[j] < c.len() by {
        reveal(row);
    }
    rows::lemma_row_ext(r2, c2, p, 3);
    rows::lemma_row_at(c2, p, 3);
    rows::lemma_row_fill(c2, p, 3, c.len());
    rows::lemma_row_other(c2, own, 0, p[3], c.len());
    let c3 = c2.ptr_fill(p[3], c.len());
    growth::lemma_action_streams_keep(c3, b.actions, own, b.actions.len(), p, 4, c.len());
    let s = writing::action_streams(c3, b.actions, own, b.actions.len());
    rows::lemma_row_at(s, p, 4);
    lemma_action_streams_len(c3, b.actions, own, b.actions.len());
    assert(writing::button_sounds(s, b, p[4]).grows_to(fin)) by {
        reveal(writing::button);
    }
    // And back again.
    lemma_button_sounds(s, b, p[4], fin);
    lemma_action_streams(c3, b.actions, own, b.actions.len(), fin);
    readback::back_ptr_fill(c2, p[3], c.len(), fin);
    lemma_action_heads(c, b.actions, b.actions.len(), fin);
    readback::back_align_ptr(r2, fin);
    lemma_button_mesh(o, b, fin);
    assert(b.actions.take(b.actions.len() as int) =~= b.actions);
    lemma_button_head(o, b, fin);
    lemma_button_parse(o, b, p, fin, s);
}

/// Putting the parts of a button together.
proof fn lemma_button_parse(o: Out, b: model::Button, p: Seq<int>, fin: Out, s: Out)
    requires
        settled(fin),
        o.ok(),
        storable_button(b, fin.ps()),
        p == writing::button_head(o, b).1,
        writing::button_head(o, b).0.grows_to(fin),
        mesh_at(fin, b, p),
        0 <= target(fin, p[3]) <= limit(fin.ps()),
        ({
            let r = reps(
                parsing::action_step(ctx(fin)),
                Rd { pos: target(fin, p[3]), err: None },
                b.actions.len(),
            );
            r.0 == b.actions && r.1.err is None
        }),
        s.ok(),
        0 < s.len(),
        s.pending(p[4], s.ps()),
        writing::button_sounds(s, b, p[4]).grows_to(fin),
    ensures
        parsing::button(ctx(fin), here(o)).0 == b,
        parsing::button(ctx(fin), here(o)).1.err is None,
{
    lemma_button_head(o, b, fin);
    lemma_button_sounds(s, b, p[4], fin);
    reveal(parsing::button);
    assert(parsing::button(ctx(fin), here(o)).0 =~= b);
}

/// Whether the glyphs of the run `t` are found at `off`.
pub open spec fn glyphs_at(fin: Out, off: int, t: model::StaticTextRecord) -> bool {
    &&& 0 <= off <= limit(fin.ps())
    &&& {
        let r = reps(parsing::glyph_step(src(fin)), Rd { pos: off, err: None }, t.glyphs.len());
        r.0 == t.glyphs && r.1.err is None
    }
}

proof fn lemma_text_glyphs(
    o: Out,
    v: Seq<model::StaticTextRecord>,
    slots: Seq<int>,
    n: nat,
    fin: Out,
)
    requires
        settled(fin),
        o.ok(),
        row(o, slots, 0),
        n <= v.len(),
        v.len() == slots.len(),
        writing::text_glyphs(o, v, slots, n).grows_to(fin),
    ensures
        o.grows_to(fin),
        forall|i: int|
            #![trigger v[i]]
            #![trigger slots[i]]
            0 <= i < n ==> glyphs_at(fin, target(fin, slots[i]), v[i]),
    decreases n,
{
    if n > 0 {
        let m = (n - 1) as nat;
        growth::lemma_text_glyphs_row(o, v, slots, m);
        let a0 = writing::text_glyphs(o, v, slots, m);
        let x = v[m as int];
        out::ext_align(a0, 2);
        let a = a0.align(2);
        out::ext_facts(a0, a);
        growth::lemma_glyphs(a, x.glyphs, x.glyphs.len());
        let b = writing::glyphs(a, x.glyphs, x.glyphs.len());
        out::ext_trans(a0, a, b);
        out::ext_facts(a, b);
        rows::lemma_row_ext(a0, b, slots, m as int);
        rows::lemma_row_at(b, slots, m as int);
        readback::settled_facts(fin);
        readback::back_ptr_fill(b, slots[m as int], a.len(), fin);
        lemma_glyphs(a, x.glyphs, x.glyphs.len(), fin);
        assert(x.glyphs.take(x.glyphs.len() as int) =~= x.glyphs);
        readback::back_align(a0, 2, fin);
        lemma_text_glyphs(o, v, slots, m, fin);
    }
}

#[verifier::rlimit(40)]
proof fn lemma_text_heads(o: Out, v: Seq<model::StaticTextRecord>, n: nat, fin: Out)
    requires
        settled(fin),
        o.ok(),
        n <= v.len(),
        writing::text_heads(o, v, n).0.grows_to(fin),
        growth::text_shaped(v),
        forall|i: int| 0 <= i < v.len() ==> (#[trigger] v[i]).glyphs.len() <= i32::MAX,
        forall|i: int|
            0 <= i < n ==> glyphs_at(fin, target(fin, #[trigger] writing::text_heads(o, v, n).1[i]), v[i]),
    ensures
        o.grows_to(fin),
        reps(parsing::text_step(src(fin)), here(o), n) == (v.take(n as int), here(writing::text_heads(o, v, n).0)),
    decreases n,
{
    broadcast use readback::group_back, out::group_ext;

    if n == 0 {
        assert(v.take(0) =~= Seq::<model::StaticTextRecord>::empty());
    } else {
        let m = (n - 1) as nat;
        growth::lemma_text_heads(o, v, m);
        let (a, s) = writing::text_heads(o, v, m);
        out::ext_facts(o, a);
        let x = v[m as int];
        let t = writing::text_heads(o, v, n).1;
        let a1 = a.align_ptr();
        let a2 = a1.put_i32(x.font_id);
        let a3 = writing::float_cxform(a2, x.cxform);
        assert(a2.ok());
        growth::lemma_float_cxform(a2, x.cxform);
        assert(a3.ok());
        let a4 = a3.put(4, x.x_offset as nat);
        let a5 = a4.put(4, x.y_offset as nat);
        let a6 = a5.put(4, x.scale as nat);
        let b = a6.put_i32(x.glyphs.len() as i32);
        assert(b.ok());
        assert(b.ptr_slot().grows_to(fin));
        assert(b.grows_to(fin));
        assert(a6.grows_to(fin));
        assert(a5.grows_to(fin));
        assert(a4.grows_to(fin));
        assert(a3.grows_to(fin));
        lemma_float_cxform(a2, x.cxform, fin);
        assert(a1.grows_to(fin));
        assert(t == s.push(b.align_ptr().len()));
        assert(t[m as int] == b.align_ptr().len());
        assert(glyphs_at(fin, target(fin, t[m as int]), x));
        assert forall|i: int| 0 <= i < m implies glyphs_at(fin, target(fin, #[trigger] s[i]), v[i]) by {
            assert(t[i] == s[i]);
        }
        lemma_text_heads(o, v, m, fin);
        assert(v.take(n as int) =~= v.take(m as int).push(x));
        assert((parsing::text_step(src(fin)))(here(a)) == (x, here(writing::text_heads(o, v, n).0)));
    }
}

proof fn lemma_static_text(o: Out, t: model::StaticText, fin: Out)
    requires
        settled(fin),
        o.ok(),
        storable_text(t),
        writing::static_text(o, t).grows_to(fin),
    ensures
        o.grows_to(fin),
        parsing::static_text(src(fin), here(o)).0 == t,
        parsing::static_text(src(fin), here(o)).1.err is None,
{
    broadcast use readback::group_back, out::group_ext;

    let v = t.records;
    let r = writing::rect(o, t.bounds);
    assert(r.ok());
    let m = writing::matrix(r, t.matrix);
    assert(m.ok());
    let a = m.put_i32(v.len() as i32);
    let a2 = a.ptr_slot();
    let b = a2.align_ptr();
    let p = a.align_ptr().len();
    assert(a.extends_to(a.align_ptr()));
    assert(a2.extends_to(b));
    growth::lemma_text_heads(b, v, v.len());
    let (c, slots) = writing::text_heads(b, v, v.len());
    assert(c.pending(p, o.ps()));
    assert(p < b.len());
    rows::lemma_row_other(c, slots, 0, p, b.len());
    let d = c.ptr_fill(p, b.len());
    lemma_text_glyphs(d, v, slots, v.len(), fin);
    readback::back_ptr_fill(c, p, b.len(), fin);
    lemma_text_heads(b, v, v.len(), fin);
    assert(a2.grows_to(fin));
    assert(a.grows_to(fin));
    assert(m.grows_to(fin));
    lemma_matrix(r, t.matrix, fin);
    lemma_rect(o, t.bounds, fin);
    assert(v.take(v.len() as int) =~= v);
}

#[verifier::rlimit(40)]
proof fn lemma_edit_text(o: Out, t: model::Text, fin: Out)
    requires
        settled(fin),
        o.ok(),
        writing::edit_text(o, t).grows_to(fin),
    ensures
        o.grows_to(fin),
        parsing::edit_text(src(fin), here(o)).0 == t,
        parsing::edit_text(src(fin), here(o)).1.err is None,
{
    broadcast use readback::group_back, out::group_ext;

    let flag = |b: bool|
        if b {
            1i32
        } else {
            0i32
        };
    let r = writing::rect(o, t.bounds);
    assert(r.ok());
    let a1 = r.put_i32(t.font_id);
    let a2 = a1.put_i32(t.alignment.code());
    let a3 = a2.put(4, t.color as nat);
    let a4 = a3.put(4, t.font_height as nat);
    let a5 = a4.put_i32(flag(t.read_only));
    let a6 = a5.put_i32(flag(t.multiline));
    let a7 = a6.put_i32(flag(t.word_wrap));
    let a8 = a7.text(t.initial_text);
    assert(a8.ok());
    assert(a8.text(t.variable).grows_to(fin));
    assert(a8.grows_to(fin));
    assert(a7.grows_to(fin));
    assert(a4.grows_to(fin));
    assert(r.grows_to(fin));
    lemma_rect(o, t.bounds, fin);
    assert(TextAlignment::of_code(t.alignment.code()) == t.alignment);
}

proof fn lemma_font(o: Out, f: model::Font, fin: Out)
    requires
        settled(fin),
        o.ok(),
        f.glyphs.len() <= i32::MAX,
        writing::font(o, f).grows_to(fin),
    ensures
        o.grows_to(fin),
        parsing::font(src(fin), here(o)).0 == f,
        parsing::font(src(fin), here(o)).1.err is None,
{
    broadcast use readback::group_back, out::group_ext;

    let a0 = o.text(f.name);
    let a = a0.put_i32(f.glyphs.len() as i32);
    assert(a.ok());
    let step = parsing::index_step(src(fin));
    if f.glyphs.len() == 0 {
        assert(f.glyphs =~= Seq::<u32>::empty());
        assert(a.ptr_value(0).grows_to(fin));
        assert(a.grows_to(fin));
        reveal_with_fuel(reps, 2);
    } else {
        let w = writing::wide(f.glyphs);
        readback::lemma_ptr_array(a, w, fin);
        let off = target(fin, round_up(a.len(), a.ps()));
        let at = |i: int| off + ptrs(fin.ps(), i);
        assert forall|i: int| 0 <= i < f.glyphs.len() implies #[trigger] step(
            Rd { pos: at(i), err: None },
        ) == (f.glyphs[i], Rd { pos: at(i + 1), err: None }) by {
            readback::lemma_listed(fin, off, w, i);
        }
        readback::lemma_reps(step, at, f.glyphs, f.glyphs.len());
        assert(f.glyphs.take(f.glyphs.len() as int) =~= f.glyphs);
        assert(0 <= off <= u64::MAX);
    }
    assert(a0.grows_to(fin));
}

#[verifier::rlimit(40)]
proof fn lemma_sprite(o: Out, v: Seq<model::Frame>, fin: Out)
    requires
        settled(fin),
        o.ok(),
        storable_frames(v, fin.ps()),
        writing::frames_err(v, v.len()) is None,
        writing::sprite(o, v).grows_to(fin),
    ensures
        o.grows_to(fin),
        parsing::sprite(ctx(fin), here(o)).0 == v,
        parsing::sprite(ctx(fin), here(o)).1.err is None,
{
    broadcast use readback::group_back, out::group_ext;

    let a = o.put_i32(v.len() as i32);
    let a2 = a.ptr_slot();
    let b = a2.ptr_value(0);
    let p = a.align_ptr().len();
    assert(a.extends_to(a.align_ptr()));
    assert(a2.pending(p, o.ps()));
    assert(a2.extends_to(b));
    growth::lemma_frames(b, v);
    let c = writing::frames(b, v);
    assert(c.pending(p, o.ps()));
    let place = writing::frames_place(b, v);
    assert(c.ptr_fill(p, place).grows_to(fin));
    lemma_fill_back(c, p, place, fin);
    lemma_frames(b, v, fin);
    assert(0 <= place <= limit(fin.ps()));
    readback::back_ptr_fill(c, p, place, fin);
    assert(a2.grows_to(fin));
    assert(a.grows_to(fin));
}

proof fn lemma_fill_back(o: Out, p: int, v: int, fin: Out)
    requires
        o.ok(),
        o.pending(p, o.ps()),
        o.ptr_fill(p, v).grows_to(fin),
    ensures
        o.grows_to(fin),
{
    out::fill_ok(o, p, o.ps(), v as nat);
    out::grow_trans(o, o.ptr_fill(p, v), fin);
}

/// The finished blob, its constants and its rendering mode as a reader sees them.
pub open spec fn px(fin: Out, decoupled: bool) -> Px {
    Px { x: ctx(fin), decoupled }
}

proof fn lemma_prelude(o: Out, decoupled: bool, type_id: i32, data: u32, fin: Out)
    requires
        settled(fin),
        o.ok(),
        writing::char_prelude(o, decoupled, type_id, data).grows_to(fin),
    ensures
        o.grows_to(fin),
        writing::char_prelude(o, decoupled, type_id, data).ok(),
        0 <= o.len() <= o.align_ptr().len() < writing::char_prelude(
            o,
            decoupled,
            type_id,
            data,
        ).len(),
        parsing::char_header(px(fin, decoupled), here(o.align_ptr())) == (
            (
                type_id,
                if decoupled {
                    data
                } else {
                    0
                },
            ),
            here(writing::char_prelude(o, decoupled, type_id, data)),
        ),
{
    broadcast use readback::group_back, out::group_ext;

    let a0 = o.align_ptr();
    let a1 = a0.put_i32(type_id);
    assert(a1.ok());
    let a = a1.ptr_value(super::types::PARENT_ANIM_MAGIC as nat);
    assert(a.ok());
    if decoupled {
        let b = a.put(4, data as nat);
        assert(b.ptr_value(0).grows_to(fin));
        assert(b.grows_to(fin));
    }
    assert(a.grows_to(fin));
    assert(a1.grows_to(fin));
    assert(a0.grows_to(fin));
}

/// A shape as it is read back: coupled files do not say which bitmap backs it,
/// decoupled ones say so in 15 bits.
pub open spec fn seen_shape(s: Shape, decoupled: bool) -> Shape {
    Shape {
        bounds: s.bounds,
        bitmap_character_id: if decoupled {
            Some(writing::or(s.bitmap_character_id, 0) & 0x7FFF)
        } else {
            None
        },
    }
}

/// A character as it is read back.
pub open spec fn seen_character(c: model::Character, decoupled: bool) -> model::Character {
    match c {
        model::Character::Shape(s) => model::Character::Shape(seen_shape(s, decoupled)),
        _ => c,
    }
}

/// A character slot as it is read back.
pub open spec fn seen_slot(x: model::CharacterSlot, decoupled: bool) -> model::CharacterSlot {
    match x {
        model::CharacterSlot::Character(c) => model::CharacterSlot::Character(
            seen_character(c, decoupled),
        ),
        _ => x,
    }
}

/// Character slots as they are read back.
pub open spec fn seen_slots(v: Seq<model::CharacterSlot>, decoupled: bool) -> Seq<
    model::CharacterSlot,
> {
    Seq::new(v.len(), |i: int| seen_slot(v[i], decoupled))
}

/// A movie as it is read back.
pub open spec fn seen_movie(m: model::Movie, decoupled: bool) -> model::Movie {
    model::Movie { characters: seen_slots(m.characters, decoupled), ..m }
}

proof fn lemma_shape_id(id: u16)
    ensures
        ((((id as u32) & 0x7FFF) & 0x7FFF) as u16) == id & 0x7FFF,
{
    assert(((((id as u32) & 0x7FFF) & 0x7FFF) as u16) == id & 0x7FFF) by (bit_vector);
}

#[verifier::rlimit(40)]
proof fn lemma_character(o: Out, decoupled: bool, c: model::Character, index: nat, fin: Out)
    requires
        settled(fin),
        o.ok(),
        storable_character(c, fin.ps()),
        writing::character_err(c) is None,
        writing::character(o, decoupled, c, index).grows_to(fin),
    ensures
        o.grows_to(fin),
        0 <= o.len() <= o.align_ptr().len() <= limit(fin.ps()),
        ({
            let r = parsing::character(px(fin, decoupled), here(o.align_ptr()));
            r.0 == seen_character(c, decoupled) && r.1.err is None
        }),
{
    broadcast use readback::group_back, out::group_ext;

    reveal(writing::character);
    reveal(parsing::character);
    let data = writing::decoupled_data(c);
    let a = writing::char_prelude(o, decoupled, c.type_id(), data);
    assert(a.ok() && 0 < a.len());
    match c {
        model::Character::Shape(s) => {
            let r = writing::rect(a, s.bounds);
            assert(r.ok());
            assert(r.ptr_value(index).grows_to(fin));
            assert(r.grows_to(fin));
            lemma_rect(a, s.bounds, fin);
            lemma_shape_id(writing::or(s.bitmap_character_id, 0));
        },
        model::Character::Text(t) => {
            lemma_edit_text(a, t, fin);
        },
        model::Character::Font(f) => {
            lemma_font(a, f, fin);
        },
        model::Character::Button(b) => {
            lemma_button(a, b, fin);
        },
        model::Character::Sprite(f) => {
            lemma_sprite(a, f, fin);
        },
        model::Character::Morph(m) => {
            let b = a.ptr_value(m.start_character_id as nat);
            assert(b.ok());
            assert(b.ptr_value(m.end_character_id as nat).grows_to(fin));
            assert(b.grows_to(fin));
        },
        model::Character::StaticText(t) => {
            lemma_static_text(a, t, fin);
        },
        _ => {},
    }
    assert(a.grows_to(fin));
    lemma_prelude(o, decoupled, c.type_id(), data, fin);
}

/// Whether the slot that holds `off` stands for `x`.
pub open spec fn slot_at(
    fin: Out,
    decoupled: bool,
    root: int,
    off: int,
    x: model::CharacterSlot,
) -> bool {
    match x {
        model::CharacterSlot::Root => off == root,
        model::CharacterSlot::Empty => off == 0,
        model::CharacterSlot::Character(c) => {
            let r = parsing::character(px(fin, decoupled), Rd { pos: off, err: None });
            &&& root < off <= limit(fin.ps())
            &&& r.0 == seen_character(c, decoupled)
            &&& r.1.err is None
        },
    }
}

proof fn lemma_characters(
    o: Out,
    decoupled: bool,
    root: int,
    v: Seq<model::CharacterSlot>,
    slots: Seq<int>,
    n: nat,
    fin: Out,
)
    requires
        settled(fin),
        o.ok(),
        0 < root < o.len(),
        row(o, slots, 0),
        n <= v.len(),
        v.len() == slots.len(),
        storable_slots(v, fin.ps()),
        writing::slots_err(v, v.len()) is None,
        writing::characters(o, decoupled, root, v, slots, n).grows_to(fin),
    ensures
        o.grows_to(fin),
        o.len() <= writing::characters(o, decoupled, root, v, slots, n).len(),
        forall|i: int|
            #![trigger v[i]]
            #![trigger slots[i]]
            0 <= i < n ==> slot_at(fin, decoupled, root, target(fin, slots[i]), v[i]),
    decreases n,
{
    readback::settled_facts(fin);
    if n > 0 {
        let m = (n - 1) as nat;
        lemma_slots_shaped(v, fin.ps());
        growth::lemma_characters_row(o, decoupled, root, v, slots, m);
        let a = writing::characters(o, decoupled, root, v, slots, m);
        rows::lemma_row_at(a, slots, m as int);
        lemma_characters_len(o, decoupled, root, v, slots, m);
        match v[m as int] {
            model::CharacterSlot::Root => {
                lemma_fill_back(a, slots[m as int], root, fin);
                out::grow_facts(a, fin);
                readback::back_ptr_fill(a, slots[m as int], root, fin);
            },
            model::CharacterSlot::Empty => {
                readback::back_ptr_fill(a, slots[m as int], 0, fin);
            },
            model::CharacterSlot::Character(c) => {
                if writing::slots_err(v, n) is Some {
                    writing::lemma_slots_sticky(v, n, v.len());
                }
                growth::lemma_character(a, decoupled, c, m);
                let b = writing::character(a, decoupled, c, m);
                out::ext_facts(a, b);
                rows::lemma_row_ext(a, b, slots, m as int);
                rows::lemma_row_at(b, slots, m as int);
                lemma_fill_back(b, slots[m as int], a.align_ptr().len(), fin);
                lemma_character(a, decoupled, c, m, fin);
                readback::back_ptr_fill(b, slots[m as int], a.align_ptr().len(), fin);
            },
        }
        lemma_characters(o, decoupled, root, v, slots, m, fin);
        lemma_characters_len(o, decoupled, root, v, slots, n);
    }
}

proof fn lemma_slots_shaped(v: Seq<model::CharacterSlot>, ps: nat)
    requires
        storable_slots(v, ps),
    ensures
        growth::slots_shaped(v),
{
    assert forall|i: int| 0 <= i < v.len() implies (#[trigger] v[i]
        matches model::CharacterSlot::Character(c) ==> growth::character_shaped(c)) by {}
}

proof fn lemma_characters_len(
    o: Out,
    decoupled: bool,
    root: int,
    v: Seq<model::CharacterSlot>,
    slots: Seq<int>,
    n: nat,
)
    requires
        o.ok(),
        row(o, slots, 0),
        n <= v.len(),
        v.len() == slots.len(),
        growth::slots_shaped(v),
    ensures
        o.len() <= writing::characters(o, decoupled, root, v, slots, n).len(),
    decreases n,
{
    if n > 0 {
        let m = (n - 1) as nat;
        lemma_characters_len(o, decoupled, root, v, slots, m);
        growth::lemma_characters_row(o, decoupled, root, v, slots, m);
        let a = writing::characters(o, decoupled, root, v, slots, m);
        match v[m as int] {
            model::CharacterSlot::Root => {
                rows::lemma_row_fill(a, slots, m as int, root);
            },
            model::CharacterSlot::Empty => {
                rows::lemma_row_fill(a, slots, m as int, 0);
            },
            model::CharacterSlot::Character(c) => {
                growth::lemma_character(a, decoupled, c, m);
                let b = writing::character(a, decoupled, c, m);
                out::ext_facts(a, b);
                rows::lemma_row_ext(a, b, slots, m as int);
                rows::lemma_row_fill(b, slots, m as int, a.align_ptr().len());
            },
        }
    }
}

/// The row of character slots.
proof fn lemma_slot_row(
    o: Out,
    decoupled: bool,
    root: int,
    v: Seq<model::CharacterSlot>,
    n: nat,
    fin: Out,
)
    requires
        settled(fin),
        o.ok(),
        n <= v.len(),
        0 < root <= limit(fin.ps()),
        storable_slots(v, fin.ps()),
        writing::slot_row(o, n).0.grows_to(fin),
        forall|i: int|
            0 <= i < n ==> slot_at(
                fin,
                decoupled,
                root,
                target(fin, #[trigger] writing::slot_row(o, n).1[i]),
                v[i],
            ),
    ensures
        o.grows_to(fin),
        parsing::char_slots(px(fin, decoupled), root as u64, here(o), n) == (
            seen_slots(v, decoupled).take(n as int),
            here(writing::slot_row(o, n).0),
        ),
    decreases n,
{
    broadcast use readback::group_back;

    let w = seen_slots(v, decoupled);
    if n == 0 {
        assert(w.take(0) =~= Seq::<model::CharacterSlot>::empty());
    } else {
        let m = (n - 1) as nat;
        growth::lemma_slot_row(o, m);
        let (a, s) = writing::slot_row(o, m);
        out::ext_facts(o, a);
        let t = writing::slot_row(o, n).1;
        assert(t == s.push(a.align_ptr().len()));
        assert(t[m as int] == a.align_ptr().len());
        assert(a.ptr_slot().grows_to(fin));
        assert forall|i: int| 0 <= i < m implies slot_at(
            fin,
            decoupled,
            root,
            target(fin, #[trigger] s[i]),
            v[i],
        ) by {
            assert(t[i] == s[i]);
        }
        lemma_slot_row(o, decoupled, root, v, m, fin);
        assert(w.take(n as int) =~= w.take(m as int).push(w[m as int]));
        assert(slot_at(fin, decoupled, root, target(fin, t[m as int]), v[m as int]));
        assert(m == 0 ==> !(v[0] is Character));
        assert(parsing::char_slot(px(fin, decoupled), root as u64, m, here(a)) == (
            w[m as int],
            here(writing::slot_row(o, n).0),
        ));
    }
}

/// What the root character says, read back.
pub open spec fn root_head_of(m: model::Movie, at: Seq<u64>) -> parsing::RootHead {
    parsing::RootHead {
        n_frames: m.frames.len() as i32,
        frames: at[0],
        n_characters: m.characters.len() as i32,
        characters: at[1],
        width: m.width,
        height: m.height,
        ms_per_frame: m.ms_per_frame,
        n_imports: m.imports.len() as i32,
        imports: at[2],
        n_exports: m.exports.len() as i32,
        exports: at[3],
    }
}

/// What the four slots of the root character hold.
pub open spec fn targets(fin: Out, p: Seq<int>) -> Seq<u64> {
    Seq::new(p.len(), |i: int| target(fin, p[i]) as u64)
}

#[verifier::rlimit(60)]
proof fn lemma_root_head(o: Out, decoupled: bool, m: model::Movie, fin: Out)
    requires
        settled(fin),
        o.ok(),
        writing::root_head(o, decoupled, m).0.grows_to(fin),
    ensures
        o.grows_to(fin),
        0 <= o.len() <= o.align_ptr().len() < writing::root_head(o, decoupled, m).0.len(),
        ({
            let r = parsing::root_head(px(fin, decoupled), here(o.align_ptr()));
            r.0 == root_head_of(m, targets(fin, writing::root_head(o, decoupled, m).1))
                && r.1.err is None
        }),
{
    broadcast use readback::group_back, out::group_ext;

    reveal(parsing::root_head);
    let a0 = writing::char_prelude(o, decoupled, 9, 0);
    assert(a0.ok());
    let a1 = a0.put_i32(m.frames.len() as i32);
    assert(a1.ok());
    let b1 = a1.ptr_slot();
    assert(b1.ok());
    let c1 = b1.ptr_value(0);
    let a2 = c1.put_i32(m.characters.len() as i32);
    assert(a2.ok());
    let b2 = a2.ptr_slot();
    assert(b2.ok());
    let c2 = b2.put(4, m.width as nat);
    let d2 = c2.put(4, m.height as nat);
    let e2 = d2.put(4, m.ms_per_frame as nat);
    let a3 = e2.put_i32(m.imports.len() as i32);
    assert(a3.ok());
    let b3 = a3.ptr_slot();
    assert(b3.ok());
    let a4 = b3.put_i32(m.exports.len() as i32);
    assert(a4.ok());
    let b4 = a4.ptr_slot();
    assert(b4.ok());
    assert(b4.ptr_value(0).grows_to(fin));
    assert(b4.grows_to(fin));
    assert(a4.grows_to(fin));
    assert(b3.grows_to(fin));
    assert(a3.grows_to(fin));
    assert(e2.grows_to(fin));
    assert(d2.grows_to(fin));
    assert(c2.grows_to(fin));
    assert(b2.grows_to(fin));
    assert(a2.grows_to(fin));
    assert(c1.grows_to(fin));
    assert(b1.grows_to(fin));
    assert(a1.grows_to(fin));
    assert(a0.grows_to(fin));
    lemma_prelude(o, decoupled, 9, 0, fin);
    growth::lemma_root_head(o, decoupled, m);
    assert(a0.extends_to(b4.ptr_value(0)));
}

/// The whole movie is read back from its root character.
#[verifier::rlimit(60)]
pub proof fn lemma_root(o: Out, decoupled: bool, m: model::Movie, fin: Out)
    requires
        settled(fin),
        o.ok(),
        0 < o.len(),
        storable_movie(m, fin.ps()),
        writing::movie_err(m) is None,
        writing::root(o, decoupled, m).grows_to(fin),
    ensures
        o.grows_to(fin),
        0 <= o.align_ptr().len() <= limit(fin.ps()),
        ({
            let r = parsing::root(px(fin, decoupled), o.align_ptr().len() as u64);
            r.0 == seen_movie(m, decoupled) && r.1.err is None
        }),
{
    broadcast use out::group_ext;

    reveal(writing::root);
    readback::settled_facts(fin);
    growth::lemma_root_head(o, decoupled, m);
    let (h, p) = writing::root_head(o, decoupled, m);
    out::ext_facts(o, h);
    assert(o.extends_to(o.align_ptr()));
    lemma_root_behind(o, decoupled, m);
    let root = o.align_ptr().len();
    // There.
    let e = h.align_ptr();
    let e1 = writing::exports(e, m.exports, m.exports.len());
    growth::lemma_exports(e, m.exports, m.exports.len());
    assert(h.extends_to(e1));
    rows::lemma_row_ext(h, e1, p, 0);
    growth::lemma_row_four(e1, p);
    let e2 = e1.ptr_fill(p[3], e.len());
    growth::lemma_frames(e2, m.frames);
    let f1 = writing::frames(e2, m.frames);
    let place = writing::frames_place(e2, m.frames);
    assert(f1.pending(p[0], f1.ps()) && f1.pending(p[1], f1.ps()) && f1.pending(p[2], f1.ps()));
    let f2 = f1.ptr_fill(p[0], place);
    out::ext_refl(f2);
    let c = f2.align_ptr();
    assert(f2.extends_to(c));
    growth::lemma_slot_row(c, m.characters.len());
    let (c2, slots) = writing::slot_row(c, m.characters.len());
    assert(f2.extends_to(c2));
    assert(c2.pending(p[1], c2.ps()) && c2.pending(p[2], c2.ps()));
    assert(p[1] < c.len() && p[2] < c.len());
    rows::lemma_row_other(c2, slots, 0, p[1], c.len());
    let c3 = c2.ptr_fill(p[1], c.len());
    lemma_slots_shaped(m.characters, fin.ps());
    growth::lemma_characters_keep(
        c3,
        decoupled,
        root,
        m.characters,
        slots,
        m.characters.len(),
        p[2],
    );
    let c4 = writing::characters(c3, decoupled, root, m.characters, slots, m.characters.len());
    out::ext_refl(c4);
    let i = c4.align_ptr();
    assert(c4.extends_to(i));
    growth::lemma_imports(i, m.imports, m.imports.len());
    let i1 = writing::imports(i, m.imports, m.imports.len());
    assert(c4.extends_to(i1));
    assert(i1.pending(p[2], i1.ps()));
    // And back again.
    lemma_fill_back(i1, p[2], i.len(), fin);
    out::grow_facts(i1, fin);
    out::ext_facts(i, i1);
    readback::back_ptr_fill(i1, p[2], i.len(), fin);
    lemma_imports(i, m.imports, m.imports.len(), fin);
    readback::back_align_ptr(c4, fin);
    lemma_characters(c3, decoupled, root, m.characters, slots, m.characters.len(), fin);
    lemma_fill_back(c2, p[1], c.len(), fin);
    out::grow_facts(c2, fin);
    out::ext_facts(c, c2);
    readback::back_ptr_fill(c2, p[1], c.len(), fin);
    lemma_slot_row(c, decoupled, root, m.characters, m.characters.len(), fin);
    readback::back_align_ptr(f2, fin);
    lemma_fill_back(f1, p[0], place, fin);
    lemma_frames(e2, m.frames, fin);
    readback::back_ptr_fill(f1, p[0], place, fin);
    lemma_fill_back(e1, p[3], e.len(), fin);
    out::grow_facts(e1, fin);
    out::ext_facts(e, e1);
    readback::back_ptr_fill(e1, p[3], e.len(), fin);
    lemma_exports(e, m.exports, m.exports.len(), fin);
    readback::back_align_ptr(h, fin);
    lemma_root_head(o, decoupled, m, fin);
    assert(m.exports.take(m.exports.len() as int) =~= m.exports);
    assert(m.imports.take(m.imports.len() as int) =~= m.imports);
    let w = seen_slots(m.characters, decoupled);
    assert(w.take(w.len() as int) =~= w);
    lemma_root_parse(o, decoupled, m, p, fin);
}

/// Laying out a movie only adds.
#[verifier::rlimit(40)]
pub proof fn lemma_root_grows(o: Out, decoupled: bool, m: model::Movie)
    requires
        o.ok(),
        storable_movie(m, o.ps()),
    ensures
        o.extends_to(writing::root(o, decoupled, m)),
{
    broadcast use out::group_ext;

    reveal(writing::root);
    growth::lemma_root_head(o, decoupled, m);
    let (h, p) = writing::root_head(o, decoupled, m);
    out::ext_facts(o, h);
    assert(o.extends_to(o.align_ptr()));
    let root = o.align_ptr().len();
    let e = h.align_ptr();
    let e1 = writing::exports(e, m.exports, m.exports.len());
    growth::lemma_exports(e, m.exports, m.exports.len());
    assert(h.extends_to(e1));
    rows::lemma_row_ext(h, e1, p, 0);
    growth::lemma_row_four(e1, p);
    let e2 = e1.ptr_fill(p[3], e.len());
    assert(o.extends_to(e2));
    growth::lemma_frames(e2, m.frames);
    let f1 = writing::frames(e2, m.frames);
    assert(o.extends_to(f1));
    let place = writing::frames_place(e2, m.frames);
    assert(f1.pending(p[0], f1.ps()) && f1.pending(p[1], f1.ps()) && f1.pending(p[2], f1.ps()));
    let f2 = f1.ptr_fill(p[0], place);
    assert(o.extends_to(f2));
    out::ext_refl(f2);
    let c = f2.align_ptr();
    assert(f2.extends_to(c));
    growth::lemma_slot_row(c, m.characters.len());
    let (c2, slots) = writing::slot_row(c, m.characters.len());
    assert(f2.extends_to(c2));
    assert(o.extends_to(c2));
    assert(c2.pending(p[1], c2.ps()) && c2.pending(p[2], c2.ps()));
    assert(p[1] < c.len() && p[2] < c.len());
    rows::lemma_row_other(c2, slots, 0, p[1], c.len());
    let c3 = c2.ptr_fill(p[1], c.len());
    assert(o.extends_to(c3));
    lemma_slots_shaped(m.characters, o.ps());
    growth::lemma_characters_keep(
        c3,
        decoupled,
        root,
        m.characters,
        slots,
        m.characters.len(),
        p[2],
    );
    growth::lemma_characters(o, c3, decoupled, root, m.characters, slots, m.characters.len());
    let c4 = writing::characters(c3, decoupled, root, m.characters, slots, m.characters.len());
    out::ext_refl(c4);
    let i = c4.align_ptr();
    assert(c4.extends_to(i));
    growth::lemma_imports(i, m.imports, m.imports.len());
    let i1 = writing::imports(i, m.imports, m.imports.len());
    assert(c4.extends_to(i1));
    assert(o.extends_to(i1));
    assert(i1.pending(p[2], i1.ps()));
}

/// The root character takes room.
proof fn lemma_root_behind(o: Out, decoupled: bool, m: model::Movie)
    requires
        o.ok(),
    ensures
        0 <= o.len() <= o.align_ptr().len() < writing::root_head(o, decoupled, m).0.len(),
{
    broadcast use out::group_ext;

    let a = o.align_ptr();
    let a0 = writing::char_prelude(o, decoupled, 9, 0);
    assert(a.extends_to(a.put_i32(9)));
    assert(a.put_i32(9).extends_to(a0));
    let a1 = a0.put_i32(m.frames.len() as i32);
    let a2 = a1.ptr_slot().ptr_value(0).put_i32(m.characters.len() as i32);
    assert(a0.extends_to(a2));
    let a3 = a2.ptr_slot().put(4, m.width as nat).put(4, m.height as nat).put(
        4,
        m.ms_per_frame as nat,
    ).put_i32(m.imports.len() as i32);
    assert(a2.extends_to(a3));
    let a4 = a3.ptr_slot().put_i32(m.exports.len() as i32);
    assert(a3.extends_to(a4));
    assert(a4.extends_to(a4.ptr_slot().ptr_value(0)));
}

/// Putting the parts of a movie together.
proof fn lemma_root_parse(o: Out, decoupled: bool, m: model::Movie, p: Seq<int>, fin: Out)
    requires
        settled(fin),
        o.ok(),
        0 < o.len(),
        storable_movie(m, fin.ps()),
        p == writing::root_head(o, decoupled, m).1,
        0 <= o.align_ptr().len() <= limit(fin.ps()),
        ({
            let r = parsing::root_head(px(fin, decoupled), here(o.align_ptr()));
            r.0 == root_head_of(m, targets(fin, p)) && r.1.err is None
        }),
        frames_at(fin, target(fin, p[0]), m.frames),
        0 <= target(fin, p[1]) <= limit(fin.ps()),
        0 <= target(fin, p[2]) <= limit(fin.ps()),
        0 <= target(fin, p[3]) <= limit(fin.ps()),
        ({
            let r = parsing::char_slots(
                px(fin, decoupled),
                o.align_ptr().len() as u64,
                Rd { pos: target(fin, p[1]), err: None },
                m.characters.len(),
            );
            r.0 == seen_slots(m.characters, decoupled) && r.1.err is None
        }),
        ({
            let r = reps(
                parsing::import_step(src(fin)),
                Rd { pos: target(fin, p[2]), err: None },
                m.imports.len(),
            );
            r.0 == m.imports && r.1.err is None
        }),
        ({
            let r = reps(
                parsing::export_step(src(fin)),
                Rd { pos: target(fin, p[3]), err: None },
                m.exports.len(),
            );
            r.0 == m.exports && r.1.err is None
        }),
    ensures
        ({
            let r = parsing::root(px(fin, decoupled), o.align_ptr().len() as u64);
            r.0 == seen_movie(m, decoupled) && r.1.err is None
        }),
{
    reveal(parsing::root);
    assert(p.len() == 4);
    assert(parsing::root(px(fin, decoupled), o.align_ptr().len() as u64).0 =~= seen_movie(
        m,
        decoupled,
    ));
}

} // verus!
