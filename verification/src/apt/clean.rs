//! Movies whose strings survive being stored.
use super::constfile;
use super::encode;
use super::flush;
use super::model::{self, CatchVar, Instruction, Value};
use super::out::Out;
use super::readback::clean;
use super::settle::all_clean;
use super::types::GlyphEntry;
use super::writing;
use vstd::prelude::*;

verus! {

pub open spec fn clean_value(v: Value) -> bool {
    match v {
        Value::String(s) => clean(s),
        _ => true,
    }
}

pub open spec fn clean_values(v: Seq<Value>) -> bool {
    forall|i: int| 0 <= i < v.len() ==> clean_value(#[trigger] v[i])
}

pub open spec fn clean_names(v: Seq<Seq<char>>) -> bool {
    forall|i: int| 0 <= i < v.len() ==> clean(#[trigger] v[i])
}

pub open spec fn clean_params(v: Seq<(u32, Seq<char>)>) -> bool {
    forall|i: int| 0 <= i < v.len() ==> clean((#[trigger] v[i]).1)
}

/// Whether the strings of an instruction are clean; those among the constants that it
/// takes only where `pool` asks for them.
pub open spec fn clean_insn(insn: Instruction, pool: bool) -> bool
    decreases insn, 0nat,
{
    match insn {
        Instruction::GetUrl { url, target } => clean(url) && clean(target),
        Instruction::SetTarget(s) => clean(s),
        Instruction::GotoLabel(s) => clean(s),
        Instruction::Push(v) => pool ==> clean_values(v),
        Instruction::DefineDictionary(v) => pool ==> clean_values(v),
        Instruction::DefineFunction { name, params, body } => {
            clean(name) && clean_names(params) && clean_block(body, pool)
        },
        Instruction::DefineFunction2 { name, params, body, .. } => {
            clean(name) && clean_params(params) && clean_block(body, pool)
        },
        Instruction::Try { catch_var, .. } => match catch_var {
            Some(CatchVar::Variable(s)) => clean(s),
            _ => true,
        },
        Instruction::PushString { value, .. } => clean(value),
        _ => true,
    }
}

/// Whether the strings of instructions are clean; those among the constants that they
/// take only where `pool` asks for them.
pub open spec fn clean_block(v: Seq<Instruction>, pool: bool) -> bool
    decreases v, 1nat,
{
    forall|i: int| 0 <= i < v.len() ==> clean_insn(#[trigger] v[i], pool)
}

pub open spec fn clean_place(p: model::PlaceObject) -> bool {
    &&& p.name matches Some(s) ==> clean(s)
    &&& p.clip_actions matches Some(v) ==> forall|i: int|
        0 <= i < v.len() ==> clean_block((#[trigger] v[i]).actions, true)
}

pub open spec fn clean_control(c: model::Control) -> bool {
    match c {
        model::Control::Action(s) => clean_block(s, true),
        model::Control::FrameLabel(s) => clean(s),
        model::Control::PlaceObject(p) => clean_place(p),
        model::Control::InitAction { actions, .. } => clean_block(actions, true),
        _ => true,
    }
}

pub open spec fn clean_frame(f: model::Frame) -> bool {
    forall|i: int| 0 <= i < f.controls.len() ==> clean_control(#[trigger] f.controls[i])
}

pub open spec fn clean_frames(v: Seq<model::Frame>) -> bool {
    forall|i: int| 0 <= i < v.len() ==> clean_frame(#[trigger] v[i])
}

pub open spec fn clean_actions(v: Seq<model::ButtonAction>) -> bool {
    forall|i: int| 0 <= i < v.len() ==> clean_block((#[trigger] v[i]).actions, true)
}

pub open spec fn clean_character(c: model::Character) -> bool {
    match c {
        model::Character::Text(t) => clean(t.initial_text) && clean(t.variable),
        model::Character::Font(f) => clean(f.name),
        model::Character::Button(b) => clean_actions(b.actions),
        model::Character::Sprite(f) => clean_frames(f),
        _ => true,
    }
}

pub open spec fn clean_slot(x: model::CharacterSlot) -> bool {
    match x {
        model::CharacterSlot::Character(c) => clean_character(c),
        _ => true,
    }
}

pub open spec fn clean_slots(v: Seq<model::CharacterSlot>) -> bool {
    forall|i: int| 0 <= i < v.len() ==> clean_slot(#[trigger] v[i])
}

pub open spec fn clean_import(x: model::Import) -> bool {
    clean(x.movie) && clean(x.name)
}

/// Whether the strings of a movie are clean: latin-1 holds them, and none has a zero
/// character in it.
pub open spec fn clean_movie(m: model::Movie) -> bool {
    &&& clean_frames(m.frames)
    &&& clean_slots(m.characters)
    &&& forall|i: int| 0 <= i < m.imports.len() ==> clean_import(#[trigger] m.imports[i])
    &&& forall|i: int| 0 <= i < m.exports.len() ==> clean((#[trigger] m.exports[i]).name)
}

/// Whether the strings that wait to be placed are clean, and those among the constants,
/// where `pool` asks for them.
#[verifier::opaque]
pub open spec fn clear(o: Out, pool: bool) -> bool {
    &&& all_clean(o.def.strings)
    &&& forall|i: int|
        0 <= i < o.def.string_arrays.len() ==> clean_names((#[trigger] o.def.string_arrays[i]).1)
    &&& forall|i: int|
        0 <= i < o.def.reg_params.len() ==> clean_params((#[trigger] o.def.reg_params[i]).1)
    &&& pool ==> clean_values(o.consts)
}

broadcast proof fn clear_raw(o: Out, b: Seq<u8>, pool: bool)
    requires
        clear(o, pool),
    ensures
        #[trigger] clear(o.raw(b), pool),
{
    reveal(clear);
}

broadcast proof fn clear_put(o: Out, n: nat, v: nat, pool: bool)
    requires
        clear(o, pool),
    ensures
        #[trigger] clear(o.put(n, v), pool),
{
    reveal(clear);
}

broadcast proof fn clear_align(o: Out, n: nat, pool: bool)
    requires
        clear(o, pool),
    ensures
        #[trigger] clear(o.align(n), pool),
{
    reveal(clear);
}

broadcast proof fn clear_slot(o: Out, n: nat, pool: bool)
    requires
        clear(o, pool),
    ensures
        #[trigger] clear(o.slot(n), pool),
{
    reveal(clear);
}

broadcast proof fn clear_fill(o: Out, p: int, n: nat, v: nat, pool: bool)
    requires
        clear(o, pool),
    ensures
        #[trigger] clear(o.fill(p, n, v), pool),
{
    reveal(clear);
}

broadcast proof fn clear_text(o: Out, s: Seq<char>, pool: bool)
    requires
        clear(o, pool),
        clean(s),
    ensures
        #[trigger] clear(o.text(s), pool),
{
    reveal(clear);
}

broadcast proof fn clear_ptr_array(o: Out, v: Seq<nat>, pool: bool)
    requires
        clear(o, pool),
    ensures
        #[trigger] clear(o.ptr_array(v), pool),
{
    reveal(clear);
}

broadcast proof fn clear_string_array(o: Out, v: Seq<Seq<char>>, pool: bool)
    requires
        clear(o, pool),
        clean_names(v),
    ensures
        #[trigger] clear(o.string_array(v), pool),
{
    reveal(clear);
}

broadcast proof fn clear_reg_params(o: Out, v: Seq<(u32, Seq<char>)>, pool: bool)
    requires
        clear(o, pool),
        clean_params(v),
    ensures
        #[trigger] clear(o.reg_params(v), pool),
{
    reveal(clear);
}

broadcast proof fn clear_constants(o: Out, v: Seq<Value>, pool: bool)
    requires
        clear(o, pool),
        pool ==> clean_values(v),
    ensures
        #[trigger] clear(o.constants(v), pool),
{
    reveal(clear);
    let all = o.consts + v;
    assert forall|i: int| pool && 0 <= i < all.len() implies clean_value(#[trigger] all[i]) by {
        if i >= o.consts.len() {
            assert(all[i] == v[i - o.consts.len()]);
        }
    }
}

broadcast group group_clear {
    clear_raw,
    clear_put,
    clear_align,
    clear_slot,
    clear_fill,
    clear_text,
    clear_ptr_array,
    clear_string_array,
    clear_reg_params,
    clear_constants,
}

proof fn lemma_words(o: Out, v: Seq<u32>, n: nat)
    requires
        clear(o, true),
    ensures
        clear(writing::words(o, v, n), true),
    decreases n,
{
    broadcast use group_clear;

    if n > 0 {
        lemma_words(o, v, (n - 1) as nat);
    }
}

proof fn lemma_octets(o: Out, v: Seq<u8>, n: nat)
    requires
        clear(o, true),
    ensures
        clear(writing::octets(o, v, n), true),
    decreases n,
{
    broadcast use group_clear;

    if n > 0 {
        lemma_octets(o, v, (n - 1) as nat);
    }
}

proof fn lemma_slot_row(o: Out, n: nat)
    requires
        clear(o, true),
    ensures
        clear(writing::slot_row(o, n).0, true),
    decreases n,
{
    broadcast use group_clear;

    if n > 0 {
        lemma_slot_row(o, (n - 1) as nat);
    }
}

proof fn lemma_vertices(o: Out, v: Seq<(u32, u32)>, n: nat)
    requires
        clear(o, true),
    ensures
        clear(writing::vertices(o, v, n), true),
    decreases n,
{
    broadcast use group_clear;

    if n > 0 {
        lemma_vertices(o, v, (n - 1) as nat);
    }
}

proof fn lemma_triangles(o: Out, v: Seq<Seq<i16>>, n: nat)
    requires
        clear(o, true),
    ensures
        clear(writing::triangles(o, v, n), true),
    decreases n,
{
    broadcast use group_clear;

    if n > 0 {
        lemma_triangles(o, v, (n - 1) as nat);
    }
}

proof fn lemma_glyphs(o: Out, v: Seq<GlyphEntry>, n: nat)
    requires
        clear(o, true),
    ensures
        clear(writing::glyphs(o, v, n), true),
    decreases n,
{
    broadcast use group_clear;

    if n > 0 {
        lemma_glyphs(o, v, (n - 1) as nat);
    }
}

proof fn lemma_float_cxform(o: Out, c: model::FloatCxForm)
    requires
        clear(o, true),
    ensures
        clear(writing::float_cxform(o, c), true),
{
    lemma_words(o, c.scale, 4);
    lemma_words(writing::words(o, c.scale, 4), c.translate, 4);
}

proof fn lemma_exports(o: Out, v: Seq<model::Export>, n: nat)
    requires
        clear(o, true),
        n <= v.len(),
        forall|i: int| 0 <= i < v.len() ==> clean((#[trigger] v[i]).name),
    ensures
        clear(writing::exports(o, v, n), true),
    decreases n,
{
    broadcast use group_clear;

    if n > 0 {
        lemma_exports(o, v, (n - 1) as nat);
    }
}

proof fn lemma_imports(o: Out, v: Seq<model::Import>, n: nat)
    requires
        clear(o, true),
        n <= v.len(),
        forall|i: int| 0 <= i < v.len() ==> clean_import(#[trigger] v[i]),
    ensures
        clear(writing::imports(o, v, n), true),
    decreases n,
{
    broadcast use group_clear;

    if n > 0 {
        lemma_imports(o, v, (n - 1) as nat);
        assert(clean_import(v[n - 1]));
    }
}

proof fn lemma_filter(o: Out, f: model::Filter)
    requires
        clear(o, true),
    ensures
        clear(writing::filter(o, f), true),
{
    broadcast use group_clear;

    reveal(writing::filter_body);
    let a = o.align_ptr().put(4, f.filter_id() as nat);
    assert(clear(a, true));
    match f {
        model::Filter::GradientGlow {
            colors,
            ratios,
            blur_x,
            blur_y,
            angle,
            distance,
            strength,
            flags,
            ..
        } => {
            let b = a.put(4, (colors.len() as u32) as nat);
            let c = b.ptr_slot();
            let d = c.ptr_slot().put(4, blur_x as nat).put(4, blur_y as nat).put(
                4,
                angle as nat,
            ).put(4, distance as nat).put(2, strength as nat).put(2, flags as nat).align(4);
            lemma_words(d, colors, colors.len());
            let e = writing::words(d, colors, colors.len()).ptr_fill(
                b.align_ptr().len(),
                d.len(),
            );
            lemma_octets(e, ratios, ratios.len());
        },
        model::Filter::ColorMatrix { values } => {
            lemma_words(a, values, values.len());
        },
        _ => {},
    }
}

proof fn lemma_filters(o: Out, v: Seq<model::Filter>, slots: Seq<int>, n: nat)
    requires
        clear(o, true),
    ensures
        clear(writing::filters(o, v, slots, n), true),
    decreases n,
{
    broadcast use group_clear;

    if n > 0 {
        lemma_filters(o, v, slots, (n - 1) as nat);
        lemma_filter(writing::filters(o, v, slots, (n - 1) as nat), v[n - 1]);
    }
}

proof fn lemma_event_heads(o: Out, v: Seq<model::EventAction>, n: nat)
    requires
        clear(o, true),
    ensures
        clear(writing::event_heads(o, v, n).0, true),
    decreases n,
{
    broadcast use group_clear;

    if n > 0 {
        lemma_event_heads(o, v, (n - 1) as nat);
    }
}

/// Laying out instructions leaves clean strings.
proof fn lemma_insn(o: Out, insn: Instruction, pool: bool)
    requires
        clear(o, pool),
        clean_insn(insn, pool),
    ensures
        clear(encode::insn_out(o, insn), pool),
    decreases insn, 0int, 0int,
{
    broadcast use group_clear;

    match insn {
        Instruction::DefineFunction { name, params, body } => {
            let h = encode::function_head(o, name, params);
            assert(clear(h, pool));
            lemma_block(encode::func_pool(h.slot(4)), body, false, pool);
        },
        Instruction::DefineFunction2 { name, params, register_count, flags, body } => {
            let h = encode::function2_head(o, name, params, register_count, flags);
            assert(clear(h, pool));
            lemma_block(encode::func_pool(h.slot(4)), body, false, pool);
        },
        _ => {
            lemma_flat(o, insn, pool);
        },
    }
}

#[verifier::rlimit(40)]
proof fn lemma_flat(o: Out, insn: Instruction, pool: bool)
    requires
        clear(o, pool),
        clean_insn(insn, pool),
    ensures
        clear(encode::flat_insn(o, insn), pool),
{
    broadcast use group_clear;

    reveal(encode::flat_insn);
    assert(clean(Seq::<char>::empty()));
}

proof fn lemma_insns(o: Out, v: Seq<Instruction>, n: nat, pool: bool)
    requires
        clear(o, pool),
        clean_block(v, pool),
    ensures
        clear(encode::insns_out(o, v, n), pool),
    decreases v, n, 0int,
{
    if 0 < n <= v.len() {
        lemma_insns(o, v, (n - 1) as nat, pool);
        lemma_insn(encode::insns_out(o, v, (n - 1) as nat), v[n - 1], pool);
    }
}

proof fn lemma_fill(a: Out, v: Seq<Instruction>, b: Seq<int>, n: nat, pool: bool)
    requires
        clear(a, pool),
    ensures
        clear(encode::fill_all(a, v, b, n), pool),
    decreases n,
{
    broadcast use group_clear;

    if n > 0 {
        lemma_fill(a, v, b, (n - 1) as nat, pool);
    }
}

pub proof fn lemma_block(o: Out, v: Seq<Instruction>, end_if_empty: bool, pool: bool)
    requires
        clear(o, pool),
        clean_block(v, pool),
    ensures
        clear(encode::block(o, v, end_if_empty), pool),
    decreases v, v.len() + 2, 0int,
{
    broadcast use group_clear;

    if !(v.len() == 0 && end_if_empty) {
        lemma_insns(o, v, v.len(), pool);
        lemma_fill(encode::insns_out(o, v, v.len()), v, encode::bounds(o, v), v.len(), pool);
    }
}

proof fn lemma_event_streams(o: Out, v: Seq<model::EventAction>, slots: Seq<int>, n: nat)
    requires
        clear(o, true),
        n <= v.len(),
        forall|i: int| 0 <= i < v.len() ==> clean_block((#[trigger] v[i]).actions, true),
    ensures
        clear(writing::event_streams(o, v, slots, n), true),
    decreases n,
{
    broadcast use group_clear;

    if n > 0 {
        lemma_event_streams(o, v, slots, (n - 1) as nat);
        lemma_block(
            writing::event_streams(o, v, slots, (n - 1) as nat),
            v[n - 1].actions,
            true,
            true,
        );
    }
}

proof fn lemma_event_set(o: Out, v: Seq<model::EventAction>, p: int)
    requires
        clear(o, true),
        forall|i: int| 0 <= i < v.len() ==> clean_block((#[trigger] v[i]).actions, true),
    ensures
        clear(writing::event_set(o, v, p), true),
{
    broadcast use group_clear;

    let a = o.align_ptr();
    let b = a.put_i32(v.len() as i32);
    let c = b.ptr_slot().ptr_fill(p, a.len()).align_ptr();
    lemma_event_heads(c, v, v.len());
    let (d, slots) = writing::event_heads(c, v, v.len());
    lemma_event_streams(d.ptr_fill(b.align_ptr().len(), c.len()), v, slots, v.len());
}

proof fn lemma_filter_set(o: Out, v: Seq<model::Filter>, p: int)
    requires
        clear(o, true),
    ensures
        clear(writing::filter_set(o, v, p), true),
{
    broadcast use group_clear;

    let a = o.align_ptr();
    lemma_slot_row(a, v.len());
    let (b, slots) = writing::slot_row(a, v.len());
    lemma_filters(b.ptr_fill(p, a.len()), v, slots, v.len());
}

proof fn lemma_place(o: Out, p: model::PlaceObject)
    requires
        clear(o, true),
        clean_place(p),
    ensures
        clear(writing::place_object(o, p), true),
{
    broadcast use group_clear;

    reveal(writing::place_object);
    let a = writing::place_head(o, p);
    assert(clear(a, true));
    let actions = a.align_ptr().len();
    let b = a.ptr_slot();
    if p.is_place_object_3() {
        let c = b.put_i32(writing::or(p.blend_mode, (-1) as i32)).put(
            4,
            (p.filters.len() as u32) as nat,
        );
        if let Some(v) = p.clip_actions {
            lemma_event_set(c.ptr_slot(), v, actions);
            lemma_filter_set(
                writing::event_set(c.ptr_slot(), v, actions),
                p.filters,
                c.align_ptr().len(),
            );
        } else {
            lemma_filter_set(c.ptr_slot(), p.filters, c.align_ptr().len());
        }
    } else if let Some(v) = p.clip_actions {
        lemma_event_set(b, v, actions);
    }
}

proof fn lemma_control(o: Out, c: model::Control)
    requires
        clear(o, true),
        clean_control(c),
    ensures
        clear(writing::control(o, c), true),
{
    broadcast use group_clear;

    let a = o.align_ptr().put_i32(c.type_id()).align_ptr();
    match c {
        model::Control::Action(s) => lemma_block(a.ptr_slot(), s, true, true),
        model::Control::PlaceObject(p) => lemma_place(a, p),
        model::Control::InitAction { sprite_id, actions } => lemma_block(
            a.put_i32(sprite_id).ptr_slot(),
            actions,
            true,
            true,
        ),
        _ => {},
    }
}

proof fn lemma_controls(o: Out, v: Seq<model::Control>, slots: Seq<int>, n: nat)
    requires
        clear(o, true),
        n <= v.len(),
        forall|i: int| 0 <= i < v.len() ==> clean_control(#[trigger] v[i]),
    ensures
        clear(writing::controls(o, v, slots, n), true),
    decreases n,
{
    broadcast use group_clear;

    if n > 0 {
        lemma_controls(o, v, slots, (n - 1) as nat);
        lemma_control(writing::controls(o, v, slots, (n - 1) as nat), v[n - 1]);
    }
}

proof fn lemma_frame_body(o: Out, f: model::Frame, p: int)
    requires
        clear(o, true),
        clean_frame(f),
    ensures
        clear(writing::frame_body(o, f, p), true),
{
    broadcast use group_clear;

    let a = o.align_ptr();
    lemma_slot_row(a, f.controls.len());
    let (b, slots) = writing::slot_row(a, f.controls.len());
    lemma_controls(b.ptr_fill(p, a.len()), f.controls, slots, f.controls.len());
}

proof fn lemma_frame_heads(o: Out, v: Seq<model::Frame>, n: nat)
    requires
        clear(o, true),
    ensures
        clear(writing::frame_heads(o, v, n).0, true),
    decreases n,
{
    broadcast use group_clear;

    if n > 0 {
        lemma_frame_heads(o, v, (n - 1) as nat);
    }
}

proof fn lemma_frame_bodies(o: Out, v: Seq<model::Frame>, slots: Seq<int>, n: nat)
    requires
        clear(o, true),
        n <= v.len(),
        clean_frames(v),
    ensures
        clear(writing::frame_bodies(o, v, slots, n), true),
    decreases n,
{
    broadcast use group_clear;

    if n > 0 {
        lemma_frame_bodies(o, v, slots, (n - 1) as nat);
        assert(clean_frame(v[n - 1]));
        lemma_frame_body(
            writing::frame_bodies(o, v, slots, (n - 1) as nat),
            v[n - 1],
            slots[n - 1],
        );
    }
}

proof fn lemma_frames(o: Out, v: Seq<model::Frame>)
    requires
        clear(o, true),
        clean_frames(v),
    ensures
        clear(writing::frames(o, v), true),
{
    broadcast use group_clear;

    if v.len() > 0 {
        lemma_frame_heads(o.align_ptr(), v, v.len());
        let (a, slots) = writing::frame_heads(o.align_ptr(), v, v.len());
        lemma_frame_bodies(a, v, slots, v.len());
    }
}

proof fn lemma_button_records(o: Out, v: Seq<model::ButtonRecord>, n: nat)
    requires
        clear(o, true),
    ensures
        clear(writing::button_records(o, v, n), true),
    decreases n,
{
    broadcast use group_clear;

    if n > 0 {
        let r = v[n - 1];
        lemma_button_records(o, v, (n - 1) as nat);
        let b = writing::button_records(o, v, (n - 1) as nat).align_ptr().put_i32(
            r.states,
        ).ptr_value(r.character_id as nat).put_i32(r.layer);
        assert(clear(b, true));
        assert(clear(writing::matrix(b, r.matrix), true));
        lemma_float_cxform(writing::matrix(b, r.matrix), r.cxform);
    }
}

proof fn lemma_action_heads(o: Out, v: Seq<model::ButtonAction>, n: nat)
    requires
        clear(o, true),
    ensures
        clear(writing::action_heads(o, v, n).0, true),
    decreases n,
{
    broadcast use group_clear;

    if n > 0 {
        lemma_action_heads(o, v, (n - 1) as nat);
    }
}

proof fn lemma_action_streams(o: Out, v: Seq<model::ButtonAction>, slots: Seq<int>, n: nat)
    requires
        clear(o, true),
        n <= v.len(),
        clean_actions(v),
    ensures
        clear(writing::action_streams(o, v, slots, n), true),
    decreases n,
{
    broadcast use group_clear;

    if n > 0 {
        lemma_action_streams(o, v, slots, (n - 1) as nat);
        lemma_block(
            writing::action_streams(o, v, slots, (n - 1) as nat),
            v[n - 1].actions,
            true,
            true,
        );
    }
}

proof fn lemma_button(o: Out, b: model::Button)
    requires
        clear(o, true),
        clean_actions(b.actions),
    ensures
        clear(writing::button(o, b), true),
{
    broadcast use group_clear;

    reveal(writing::button);
    let (h, p) = writing::button_head(o, b);
    assert(clear(h, true));
    let v = h.align(4);
    lemma_vertices(v, b.hit_test_vertices, b.hit_test_vertices.len());
    let v2 = writing::vertices(v, b.hit_test_vertices, b.hit_test_vertices.len()).ptr_fill(
        p[0],
        v.len(),
    );
    let t = v2.align(2);
    lemma_triangles(t, b.hit_test_triangles, b.hit_test_triangles.len());
    let t2 = writing::triangles(t, b.hit_test_triangles, b.hit_test_triangles.len()).ptr_fill(
        p[1],
        t.len(),
    );
    let r = t2.align_ptr();
    lemma_button_records(r, b.records, b.records.len());
    let r2 = writing::button_records(r, b.records, b.records.len()).ptr_fill(p[2], r.len());
    let c = r2.align_ptr();
    lemma_action_heads(c, b.actions, b.actions.len());
    let (c2, slots) = writing::action_heads(c, b.actions, b.actions.len());
    lemma_action_streams(c2.ptr_fill(p[3], c.len()), b.actions, slots, b.actions.len());
}

proof fn lemma_text_heads(o: Out, v: Seq<model::StaticTextRecord>, n: nat)
    requires
        clear(o, true),
    ensures
        clear(writing::text_heads(o, v, n).0, true),
    decreases n,
{
    broadcast use group_clear;

    if n > 0 {
        lemma_text_heads(o, v, (n - 1) as nat);
        let a = writing::text_heads(o, v, (n - 1) as nat).0;
        lemma_float_cxform(a.align_ptr().put_i32(v[n - 1].font_id), v[n - 1].cxform);
    }
}

proof fn lemma_text_glyphs(o: Out, v: Seq<model::StaticTextRecord>, slots: Seq<int>, n: nat)
    requires
        clear(o, true),
    ensures
        clear(writing::text_glyphs(o, v, slots, n), true),
    decreases n,
{
    broadcast use group_clear;

    if n > 0 {
        lemma_text_glyphs(o, v, slots, (n - 1) as nat);
        let a = writing::text_glyphs(o, v, slots, (n - 1) as nat).align(2);
        lemma_glyphs(a, v[n - 1].glyphs, v[n - 1].glyphs.len());
    }
}

proof fn lemma_static_text(o: Out, t: model::StaticText)
    requires
        clear(o, true),
    ensures
        clear(writing::static_text(o, t), true),
{
    broadcast use group_clear;

    let a = writing::matrix(writing::rect(o, t.bounds), t.matrix).put_i32(t.records.len() as i32);
    assert(clear(a, true));
    let b = a.ptr_slot().align_ptr();
    lemma_text_heads(b, t.records, t.records.len());
    let (c, slots) = writing::text_heads(b, t.records, t.records.len());
    lemma_text_glyphs(
        c.ptr_fill(a.align_ptr().len(), b.len()),
        t.records,
        slots,
        t.records.len(),
    );
}

proof fn lemma_character(o: Out, decoupled: bool, c: model::Character, index: nat)
    requires
        clear(o, true),
        clean_character(c),
    ensures
        clear(writing::character(o, decoupled, c, index), true),
{
    broadcast use group_clear;

    reveal(writing::character);
    let a = writing::char_prelude(o, decoupled, c.type_id(), writing::decoupled_data(c));
    assert(clear(a, true));
    match c {
        model::Character::Button(b) => lemma_button(a, b),
        model::Character::Sprite(f) => {
            let b = a.put_i32(f.len() as i32).ptr_slot().ptr_value(0);
            assert(clear(b, true));
            lemma_frames(b, f);
        },
        model::Character::StaticText(t) => lemma_static_text(a, t),
        _ => {},
    }
}

proof fn lemma_characters(
    o: Out,
    decoupled: bool,
    root: int,
    v: Seq<model::CharacterSlot>,
    slots: Seq<int>,
    n: nat,
)
    requires
        clear(o, true),
        n <= v.len(),
        clean_slots(v),
    ensures
        clear(writing::characters(o, decoupled, root, v, slots, n), true),
    decreases n,
{
    broadcast use group_clear;

    if n > 0 {
        lemma_characters(o, decoupled, root, v, slots, (n - 1) as nat);
        assert(clean_slot(v[n - 1]));
        if let model::CharacterSlot::Character(c) = v[n - 1] {
            lemma_character(
                writing::characters(o, decoupled, root, v, slots, (n - 1) as nat),
                decoupled,
                c,
                (n - 1) as nat,
            );
        }
    }
}

proof fn lemma_root(o: Out, decoupled: bool, m: model::Movie)
    requires
        clear(o, true),
        clean_movie(m),
    ensures
        clear(writing::root(o, decoupled, m), true),
{
    broadcast use group_clear;

    reveal(writing::root);
    let (h, p) = writing::root_head(o, decoupled, m);
    assert(clear(h, true));
    let e = h.align_ptr();
    lemma_exports(e, m.exports, m.exports.len());
    let e2 = writing::exports(e, m.exports, m.exports.len()).ptr_fill(p[3], e.len());
    lemma_frames(e2, m.frames);
    let f2 = writing::frames(e2, m.frames).ptr_fill(
        p[0],
        writing::frames_place(e2, m.frames),
    );
    let c = f2.align_ptr();
    lemma_slot_row(c, m.characters.len());
    let (c2, slots) = writing::slot_row(c, m.characters.len());
    lemma_characters(
        c2.ptr_fill(p[1], c.len()),
        decoupled,
        o.align_ptr().len(),
        m.characters,
        slots,
        m.characters.len(),
    );
    let c3 = writing::characters(
        c2.ptr_fill(p[1], c.len()),
        decoupled,
        o.align_ptr().len(),
        m.characters,
        slots,
        m.characters.len(),
    );
    lemma_imports(c3.align_ptr(), m.imports, m.imports.len());
}

proof fn lemma_ptr_values(o: Out, v: Seq<nat>, n: nat, pool: bool)
    requires
        clear(o, pool),
    ensures
        clear(flush::ptr_values(o, v, n), pool),
    decreases n,
{
    broadcast use group_clear;

    if n > 0 {
        lemma_ptr_values(o, v, (n - 1) as nat, pool);
    }
}

proof fn lemma_place_ptr_arrays(o: Out, n: nat, pool: bool)
    requires
        clear(o, pool),
        n <= o.def.ptr_arrays.len(),
    ensures
        clear(flush::place_ptr_arrays(o, n), pool),
    decreases n,
{
    broadcast use group_clear;

    if n > 0 {
        lemma_place_ptr_arrays(o, (n - 1) as nat, pool);
        let a = flush::place_ptr_arrays(o, (n - 1) as nat);
        let v = o.def.ptr_arrays[n - 1].1;
        lemma_ptr_values(a.align_ptr(), v, v.len(), pool);
    }
}

proof fn lemma_texts(o: Out, v: Seq<Seq<char>>, n: nat, pool: bool)
    requires
        clear(o, pool),
        n <= v.len(),
        clean_names(v),
    ensures
        clear(flush::texts(o, v, n), pool),
    decreases n,
{
    broadcast use group_clear;

    if n > 0 {
        lemma_texts(o, v, (n - 1) as nat, pool);
    }
}

proof fn lemma_place_string_arrays(o: Out, n: nat, pool: bool)
    requires
        clear(o, pool),
        n <= o.def.string_arrays.len(),
        forall|i: int|
            0 <= i < o.def.string_arrays.len() ==> clean_names((#[trigger] o.def.string_arrays[i]).1),
    ensures
        clear(flush::place_string_arrays(o, n), pool),
    decreases n,
{
    broadcast use group_clear;

    if n > 0 {
        lemma_place_string_arrays(o, (n - 1) as nat, pool);
        let a = flush::place_string_arrays(o, (n - 1) as nat);
        let v = o.def.string_arrays[n - 1].1;
        lemma_texts(a.align_ptr(), v, v.len(), pool);
    }
}

proof fn lemma_reg_texts(o: Out, v: Seq<(u32, Seq<char>)>, n: nat, pool: bool)
    requires
        clear(o, pool),
        n <= v.len(),
        clean_params(v),
    ensures
        clear(flush::reg_texts(o, v, n), pool),
    decreases n,
{
    broadcast use group_clear;

    if n > 0 {
        lemma_reg_texts(o, v, (n - 1) as nat, pool);
    }
}

proof fn lemma_place_all_params(o: Out, n: nat, pool: bool)
    requires
        clear(o, pool),
        n <= o.def.reg_params.len(),
        forall|i: int|
            0 <= i < o.def.reg_params.len() ==> clean_params((#[trigger] o.def.reg_params[i]).1),
    ensures
        clear(flush::place_all_params(o, n), pool),
    decreases n,
{
    broadcast use group_clear;

    if n > 0 {
        lemma_place_all_params(o, (n - 1) as nat, pool);
        let a = flush::place_all_params(o, (n - 1) as nat);
        let v = o.def.reg_params[n - 1].1;
        lemma_reg_texts(a.align_ptr(), v, v.len(), pool);
    }
}

proof fn lemma_ptr_values_keep(o: Out, v: Seq<nat>, n: nat)
    ensures
        flush::ptr_values(o, v, n).def == o.def,
    decreases n,
{
    if n > 0 {
        lemma_ptr_values_keep(o, v, (n - 1) as nat);
    }
}

proof fn lemma_place_ptr_arrays_keep(o: Out, n: nat)
    ensures
        flush::place_ptr_arrays(o, n).def == o.def,
    decreases n,
{
    if n > 0 {
        lemma_place_ptr_arrays_keep(o, (n - 1) as nat);
        let v = o.def.ptr_arrays[n - 1].1;
        lemma_ptr_values_keep(
            flush::place_ptr_arrays(o, (n - 1) as nat).align_ptr(),
            v,
            v.len(),
        );
    }
}

proof fn lemma_texts_keep(o: Out, v: Seq<Seq<char>>, n: nat)
    ensures
        flush::texts(o, v, n).def.reg_params == o.def.reg_params,
    decreases n,
{
    if n > 0 {
        lemma_texts_keep(o, v, (n - 1) as nat);
    }
}

proof fn lemma_place_string_arrays_keep(o: Out, n: nat)
    ensures
        flush::place_string_arrays(o, n).def.reg_params == o.def.reg_params,
    decreases n,
{
    if n > 0 {
        lemma_place_string_arrays_keep(o, (n - 1) as nat);
        let v = o.def.string_arrays[n - 1].1;
        lemma_texts_keep(
            flush::place_string_arrays(o, (n - 1) as nat).align_ptr(),
            v,
            v.len(),
        );
    }
}

/// The strings that are placed are clean.
pub proof fn lemma_placed(o: Out, pool: bool)
    requires
        clear(o, pool),
    ensures
        all_clean(flush::all_strings(o)),
{
    let a = flush::place_ptr_arrays(o, o.def.ptr_arrays.len());
    lemma_place_ptr_arrays(o, o.def.ptr_arrays.len(), pool);
    lemma_place_ptr_arrays_keep(o, o.def.ptr_arrays.len());
    lemma_place_string_arrays_keep(a, o.def.string_arrays.len());
    reveal(clear);
    lemma_place_string_arrays(a, o.def.string_arrays.len(), pool);
    let b = flush::place_string_arrays(a, o.def.string_arrays.len());
    lemma_place_all_params(b, o.def.reg_params.len(), pool);
}

pub proof fn lemma_empty(ps: nat, pool: bool)
    ensures
        clear(Out::empty(ps), pool),
{
    reveal(clear);
}

proof fn lemma_entries(o: Out, v: Seq<Value>, n: nat)
    requires
        clear(o, true),
        n <= v.len(),
        clean_values(v),
    ensures
        clear(constfile::write_entries(o, v, n), true),
    decreases n,
{
    broadcast use group_clear;

    if n > 0 {
        lemma_entries(o, v, (n - 1) as nat);
        assert(clean_value(v[n - 1]));
    }
}

/// The strings that are placed for a movie with clean strings, and those of its
/// constants, are clean.
pub proof fn law_clean_layout(f: model::AptFile, ps: nat, decoupled: bool, tag: Seq<u8>)
    requires
        clean_movie(f.movie),
    ensures
        all_clean(flush::all_strings(writing::layout(f.movie, ps, decoupled, tag))),
        all_clean(
            flush::all_strings(
                constfile::const_layout(writing::const_part(f, ps, decoupled, tag), ps),
            ),
        ),
{
    broadcast use group_clear;

    lemma_empty(ps, true);
    lemma_root(Out::empty(ps).raw(tag), decoupled, f.movie);
    let o = writing::layout(f.movie, ps, decoupled, tag);
    lemma_placed(o, true);
    let k = writing::const_part(f, ps, decoupled, tag);
    assert(clean_values(k.constants)) by {
        reveal(clear);
    }
    let h = Out::empty(ps).raw(k.magic).align_ptr().ptr_value(
        k.main_character_offset as nat,
    ).put_i32(k.constants.len() as i32);
    assert(clear(h, true));
    let p = h.align_ptr().len();
    let t = h.ptr_slot().align_ptr();
    lemma_entries(t.ptr_fill(p, t.len()), k.constants, k.constants.len());
    lemma_placed(constfile::const_layout(k, ps), true);
}

} // verus!
