//! The constants of a movie, in the order in which a writer meets them.
use super::encode;
use super::model::{self, Instruction, Value};
use super::out::Out;
use super::types::GlyphEntry;
use super::writing;
use vstd::prelude::*;

verus! {

/// The constants of an instruction.
pub open spec fn insn_constants(insn: Instruction) -> Seq<Value>
    decreases insn, 0nat,
{
    match insn {
        Instruction::Push(v) => v,
        Instruction::DefineDictionary(v) => v,
        Instruction::DefineFunction { body, .. } => block_constants(body, body.len()),
        Instruction::DefineFunction2 { body, .. } => block_constants(body, body.len()),
        _ => Seq::empty(),
    }
}

/// The constants of the first `n` instructions.
pub open spec fn block_constants(v: Seq<Instruction>, n: nat) -> Seq<Value>
    decreases v, n,
{
    if n == 0 || n > v.len() {
        Seq::empty()
    } else {
        block_constants(v, (n - 1) as nat) + insn_constants(v[n - 1])
    }
}

/// The constants of a stream.
pub open spec fn stream_constants(v: Seq<Instruction>) -> Seq<Value> {
    block_constants(v, v.len())
}

/// The constants of the first `n` clip event handlers.
pub open spec fn event_constants(v: Seq<model::EventAction>, n: nat) -> Seq<Value>
    decreases n,
{
    if n == 0 {
        Seq::empty()
    } else {
        event_constants(v, (n - 1) as nat) + stream_constants(v[n - 1].actions)
    }
}

/// The constants of a control.
pub open spec fn control_constants(c: model::Control) -> Seq<Value> {
    match c {
        model::Control::Action(s) => stream_constants(s),
        model::Control::InitAction { actions, .. } => stream_constants(actions),
        model::Control::PlaceObject(p) => match p.clip_actions {
            Some(v) => event_constants(v, v.len()),
            None => Seq::empty(),
        },
        _ => Seq::empty(),
    }
}

/// The constants of the first `n` controls.
pub open spec fn controls_constants(v: Seq<model::Control>, n: nat) -> Seq<Value>
    decreases n,
{
    if n == 0 {
        Seq::empty()
    } else {
        controls_constants(v, (n - 1) as nat) + control_constants(v[n - 1])
    }
}

/// The constants of the first `n` frames.
pub open spec fn frame_constants(v: Seq<model::Frame>, n: nat) -> Seq<Value>
    decreases n,
{
    if n == 0 {
        Seq::empty()
    } else {
        frame_constants(v, (n - 1) as nat) + controls_constants(
            v[n - 1].controls,
            v[n - 1].controls.len(),
        )
    }
}

/// The constants of the first `n` button actions.
pub open spec fn action_constants(v: Seq<model::ButtonAction>, n: nat) -> Seq<Value>
    decreases n,
{
    if n == 0 {
        Seq::empty()
    } else {
        action_constants(v, (n - 1) as nat) + stream_constants(v[n - 1].actions)
    }
}

/// The constants of a character slot.
pub open spec fn slot_constants(x: model::CharacterSlot) -> Seq<Value> {
    match x {
        model::CharacterSlot::Character(model::Character::Button(b)) => action_constants(
            b.actions,
            b.actions.len(),
        ),
        model::CharacterSlot::Character(model::Character::Sprite(f)) => frame_constants(f, f.len()),
        _ => Seq::empty(),
    }
}

/// The constants of the first `n` character slots.
pub open spec fn slots_constants(v: Seq<model::CharacterSlot>, n: nat) -> Seq<Value>
    decreases n,
{
    if n == 0 {
        Seq::empty()
    } else {
        slots_constants(v, (n - 1) as nat) + slot_constants(v[n - 1])
    }
}

/// The constants of a movie in the order in which an engine resolves them: those of
/// its own frames, then those of its characters in index order.
pub open spec fn movie_constants(m: model::Movie) -> Seq<Value> {
    frame_constants(m.frames, m.frames.len()) + slots_constants(m.characters, m.characters.len())
}

proof fn lemma_more(a: Seq<Value>, b: Seq<Value>, c: Seq<Value>)
    ensures
        a + (b + c) == (a + b) + c,
{
    assert(a + (b + c) =~= (a + b) + c);
}

proof fn lemma_none(a: Seq<Value>)
    ensures
        a + Seq::<Value>::empty() == a,
{
    assert(a + Seq::<Value>::empty() =~= a);
}

proof fn lemma_words(o: Out, v: Seq<u32>, n: nat)
    ensures
        writing::words(o, v, n).consts == o.consts,
    decreases n,
{
    if n > 0 {
        lemma_words(o, v, (n - 1) as nat);
    }
}

proof fn lemma_octets(o: Out, v: Seq<u8>, n: nat)
    ensures
        writing::octets(o, v, n).consts == o.consts,
    decreases n,
{
    if n > 0 {
        lemma_octets(o, v, (n - 1) as nat);
    }
}

proof fn lemma_slot_row(o: Out, n: nat)
    ensures
        writing::slot_row(o, n).0.consts == o.consts,
    decreases n,
{
    if n > 0 {
        lemma_slot_row(o, (n - 1) as nat);
    }
}

proof fn lemma_vertices(o: Out, v: Seq<(u32, u32)>, n: nat)
    ensures
        writing::vertices(o, v, n).consts == o.consts,
    decreases n,
{
    if n > 0 {
        lemma_vertices(o, v, (n - 1) as nat);
    }
}

proof fn lemma_triangles(o: Out, v: Seq<Seq<i16>>, n: nat)
    ensures
        writing::triangles(o, v, n).consts == o.consts,
    decreases n,
{
    if n > 0 {
        lemma_triangles(o, v, (n - 1) as nat);
    }
}

proof fn lemma_glyphs(o: Out, v: Seq<GlyphEntry>, n: nat)
    ensures
        writing::glyphs(o, v, n).consts == o.consts,
    decreases n,
{
    if n > 0 {
        lemma_glyphs(o, v, (n - 1) as nat);
    }
}

proof fn lemma_float_cxform(o: Out, c: model::FloatCxForm)
    ensures
        writing::float_cxform(o, c).consts == o.consts,
{
    lemma_words(o, c.scale, 4);
    lemma_words(writing::words(o, c.scale, 4), c.translate, 4);
}

proof fn lemma_exports(o: Out, v: Seq<model::Export>, n: nat)
    ensures
        writing::exports(o, v, n).consts == o.consts,
    decreases n,
{
    if n > 0 {
        lemma_exports(o, v, (n - 1) as nat);
    }
}

proof fn lemma_imports(o: Out, v: Seq<model::Import>, n: nat)
    ensures
        writing::imports(o, v, n).consts == o.consts,
    decreases n,
{
    if n > 0 {
        lemma_imports(o, v, (n - 1) as nat);
    }
}

proof fn lemma_filter(o: Out, f: model::Filter)
    ensures
        writing::filter(o, f).consts == o.consts,
{
    reveal(writing::filter_body);
    let a = o.align_ptr().put(4, f.filter_id() as nat);
    match f {
        model::Filter::GradientGlow {
            colors,
            ratios,
            blur_x,
            blur_y,
            angle,
            distance,
            strength,
            flags,
            ..
        } => {
            let b = a.put(4, (colors.len() as u32) as nat);
            let c = b.ptr_slot();
            let d = c.ptr_slot().put(4, blur_x as nat).put(4, blur_y as nat).put(
                4,
                angle as nat,
            ).put(4, distance as nat).put(2, strength as nat).put(2, flags as nat).align(4);
            lemma_words(d, colors, colors.len());
            let e = writing::words(d, colors, colors.len()).ptr_fill(
                b.align_ptr().len(),
                d.len(),
            );
            lemma_octets(e, ratios, ratios.len());
        },
        model::Filter::ColorMatrix { values } => {
            lemma_words(a, values, values.len());
        },
        _ => {},
    }
}

proof fn lemma_filters(o: Out, v: Seq<model::Filter>, slots: Seq<int>, n: nat)
    ensures
        writing::filters(o, v, slots, n).consts == o.consts,
    decreases n,
{
    if n > 0 {
        lemma_filters(o, v, slots, (n - 1) as nat);
        lemma_filter(writing::filters(o, v, slots, (n - 1) as nat), v[n - 1]);
    }
}

proof fn lemma_event_heads(o: Out, v: Seq<model::EventAction>, n: nat)
    ensures
        writing::event_heads(o, v, n).0.consts == o.consts,
    decreases n,
{
    if n > 0 {
        lemma_event_heads(o, v, (n - 1) as nat);
    }
}

proof fn lemma_frame_heads(o: Out, v: Seq<model::Frame>, n: nat)
    ensures
        writing::frame_heads(o, v, n).0.consts == o.consts,
    decreases n,
{
    if n > 0 {
        lemma_frame_heads(o, v, (n - 1) as nat);
    }
}

proof fn lemma_action_heads(o: Out, v: Seq<model::ButtonAction>, n: nat)
    ensures
        writing::action_heads(o, v, n).0.consts == o.consts,
    decreases n,
{
    if n > 0 {
        lemma_action_heads(o, v, (n - 1) as nat);
    }
}

proof fn lemma_button_records(o: Out, v: Seq<model::ButtonRecord>, n: nat)
    ensures
        writing::button_records(o, v, n).consts == o.consts,
    decreases n,
{
    if n > 0 {
        let r = v[n - 1];
        lemma_button_records(o, v, (n - 1) as nat);
        let b = writing::button_records(o, v, (n - 1) as nat).align_ptr().put_i32(
            r.states,
        ).ptr_value(r.character_id as nat).put_i32(r.layer);
        lemma_float_cxform(writing::matrix(b, r.matrix), r.cxform);
    }
}

proof fn lemma_text_heads(o: Out, v: Seq<model::StaticTextRecord>, n: nat)
    ensures
        writing::text_heads(o, v, n).0.consts == o.consts,
    decreases n,
{
    if n > 0 {
        lemma_text_heads(o, v, (n - 1) as nat);
        let a = writing::text_heads(o, v, (n - 1) as nat).0;
        lemma_float_cxform(a.align_ptr().put_i32(v[n - 1].font_id), v[n - 1].cxform);
    }
}

proof fn lemma_text_glyphs(o: Out, v: Seq<model::StaticTextRecord>, slots: Seq<int>, n: nat)
    ensures
        writing::text_glyphs(o, v, slots, n).consts == o.consts,
    decreases n,
{
    if n > 0 {
        lemma_text_glyphs(o, v, slots, (n - 1) as nat);
        let a = writing::text_glyphs(o, v, slots, (n - 1) as nat).align(2);
        lemma_glyphs(a, v[n - 1].glyphs, v[n - 1].glyphs.len());
    }
}

proof fn lemma_static_text(o: Out, t: model::StaticText)
    ensures
        writing::static_text(o, t).consts == o.consts,
{
    let a = writing::matrix(writing::rect(o, t.bounds), t.matrix).put_i32(t.records.len() as i32);
    let b = a.ptr_slot().align_ptr();
    lemma_text_heads(b, t.records, t.records.len());
    let (c, slots) = writing::text_heads(b, t.records, t.records.len());
    lemma_text_glyphs(
        c.ptr_fill(a.align_ptr().len(), b.len()),
        t.records,
        slots,
        t.records.len(),
    );
}

proof fn lemma_fill(a: Out, v: Seq<Instruction>, b: Seq<int>, n: nat)
    ensures
        encode::fill_all(a, v, b, n).consts == a.consts,
    decreases n,
{
    if n > 0 {
        lemma_fill(a, v, b, (n - 1) as nat);
    }
}

/// Laying out an instruction adds its constants.
proof fn lemma_insn(o: Out, insn: Instruction)
    ensures
        encode::insn_out(o, insn).consts == o.consts + insn_constants(insn),
    decreases insn, 0int, 0int,
{
    lemma_none(o.consts);
    match insn {
        Instruction::DefineFunction { name, params, body } => {
            let h = encode::function_head(o, name, params);
            lemma_block(encode::func_pool(h.slot(4)), body, false);
        },
        Instruction::DefineFunction2 { name, params, register_count, flags, body } => {
            let h = encode::function2_head(o, name, params, register_count, flags);
            lemma_block(encode::func_pool(h.slot(4)), body, false);
        },
        _ => {
            reveal(encode::flat_insn);
            if let Instruction::Push(v) = insn {
                if v.len() == 0 {
                    assert(v =~= Seq::empty());
                }
            }
            if let Instruction::DefineDictionary(v) = insn {
                if v.len() == 0 {
                    assert(v =~= Seq::empty());
                }
            }
        },
    }
}

proof fn lemma_insns(o: Out, v: Seq<Instruction>, n: nat)
    ensures
        encode::insns_out(o, v, n).consts == o.consts + block_constants(v, n),
    decreases v, n, 0int,
{
    if 0 < n <= v.len() {
        lemma_insns(o, v, (n - 1) as nat);
        lemma_insn(encode::insns_out(o, v, (n - 1) as nat), v[n - 1]);
        lemma_more(o.consts, block_constants(v, (n - 1) as nat), insn_constants(v[n - 1]));
    } else {
        lemma_none(o.consts);
    }
}

proof fn lemma_block(o: Out, v: Seq<Instruction>, end_if_empty: bool)
    ensures
        encode::block(o, v, end_if_empty).consts == o.consts + block_constants(v, v.len()),
    decreases v, v.len() + 2, 0int,
{
    if v.len() == 0 && end_if_empty {
        lemma_none(o.consts);
    } else {
        lemma_insns(o, v, v.len());
        lemma_fill(encode::insns_out(o, v, v.len()), v, encode::bounds(o, v), v.len());
    }
}

proof fn lemma_event_streams(o: Out, v: Seq<model::EventAction>, slots: Seq<int>, n: nat)
    requires
        n <= v.len(),
    ensures
        writing::event_streams(o, v, slots, n).consts == o.consts + event_constants(v, n),
    decreases n,
{
    if n > 0 {
        let a = writing::event_streams(o, v, slots, (n - 1) as nat);
        lemma_event_streams(o, v, slots, (n - 1) as nat);
        lemma_block(a, v[n - 1].actions, true);
        lemma_more(o.consts, event_constants(v, (n - 1) as nat), stream_constants(v[n - 1].actions));
    } else {
        lemma_none(o.consts);
    }
}

proof fn lemma_event_set(o: Out, v: Seq<model::EventAction>, p: int)
    ensures
        writing::event_set(o, v, p).consts == o.consts + event_constants(v, v.len()),
{
    let a = o.align_ptr();
    let b = a.put_i32(v.len() as i32);
    let c = b.ptr_slot().ptr_fill(p, a.len()).align_ptr();
    lemma_event_heads(c, v, v.len());
    let (d, slots) = writing::event_heads(c, v, v.len());
    lemma_event_streams(d.ptr_fill(b.align_ptr().len(), c.len()), v, slots, v.len());
}

proof fn lemma_filter_set(o: Out, v: Seq<model::Filter>, p: int)
    ensures
        writing::filter_set(o, v, p).consts == o.consts,
{
    let a = o.align_ptr();
    lemma_slot_row(a, v.len());
    let (b, slots) = writing::slot_row(a, v.len());
    lemma_filters(b.ptr_fill(p, a.len()), v, slots, v.len());
}

proof fn lemma_place(o: Out, p: model::PlaceObject)
    ensures
        writing::place_object(o, p).consts == o.consts + control_constants(
            model::Control::PlaceObject(p),
        ),
{
    reveal(writing::place_object);
    lemma_none(o.consts);
    let a = writing::place_head(o, p);
    let actions = a.align_ptr().len();
    let b = a.ptr_slot();
    if p.is_place_object_3() {
        let c = b.put_i32(writing::or(p.blend_mode, (-1) as i32)).put(
            4,
            (p.filters.len() as u32) as nat,
        );
        if let Some(v) = p.clip_actions {
            lemma_event_set(c.ptr_slot(), v, actions);
            lemma_filter_set(
                writing::event_set(c.ptr_slot(), v, actions),
                p.filters,
                c.align_ptr().len(),
            );
        } else {
            lemma_filter_set(c.ptr_slot(), p.filters, c.align_ptr().len());
        }
    } else if let Some(v) = p.clip_actions {
        lemma_event_set(b, v, actions);
    }
}

proof fn lemma_control(o: Out, c: model::Control)
    ensures
        writing::control(o, c).consts == o.consts + control_constants(c),
{
    lemma_none(o.consts);
    let a = o.align_ptr().put_i32(c.type_id()).align_ptr();
    match c {
        model::Control::Action(s) => lemma_block(a.ptr_slot(), s, true),
        model::Control::PlaceObject(p) => lemma_place(a, p),
        model::Control::InitAction { sprite_id, actions } => lemma_block(
            a.put_i32(sprite_id).ptr_slot(),
            actions,
            true,
        ),
        _ => {},
    }
}

proof fn lemma_controls(o: Out, v: Seq<model::Control>, slots: Seq<int>, n: nat)
    requires
        n <= v.len(),
    ensures
        writing::controls(o, v, slots, n).consts == o.consts + controls_constants(v, n),
    decreases n,
{
    if n > 0 {
        let a = writing::controls(o, v, slots, (n - 1) as nat);
        lemma_controls(o, v, slots, (n - 1) as nat);
        lemma_control(a, v[n - 1]);
        lemma_more(o.consts, controls_constants(v, (n - 1) as nat), control_constants(v[n - 1]));
    } else {
        lemma_none(o.consts);
    }
}

proof fn lemma_frame_body(o: Out, f: model::Frame, p: int)
    ensures
        writing::frame_body(o, f, p).consts == o.consts + controls_constants(
            f.controls,
            f.controls.len(),
        ),
{
    let a = o.align_ptr();
    lemma_slot_row(a, f.controls.len());
    let (b, slots) = writing::slot_row(a, f.controls.len());
    lemma_controls(b.ptr_fill(p, a.len()), f.controls, slots, f.controls.len());
}

proof fn lemma_frame_bodies(o: Out, v: Seq<model::Frame>, slots: Seq<int>, n: nat)
    requires
        n <= v.len(),
    ensures
        writing::frame_bodies(o, v, slots, n).consts == o.consts + frame_constants(v, n),
    decreases n,
{
    if n > 0 {
        let a = writing::frame_bodies(o, v, slots, (n - 1) as nat);
        lemma_frame_bodies(o, v, slots, (n - 1) as nat);
        lemma_frame_body(a, v[n - 1], slots[n - 1]);
        lemma_more(o.consts, frame_constants(v, (n - 1) as nat), controls_constants(v[n - 1].controls, v[n - 1].controls.len()));
    } else {
        lemma_none(o.consts);
    }
}

proof fn lemma_frames(o: Out, v: Seq<model::Frame>)
    ensures
        writing::frames(o, v).consts == o.consts + frame_constants(v, v.len()),
{
    if v.len() > 0 {
        lemma_frame_heads(o.align_ptr(), v, v.len());
        let (a, slots) = writing::frame_heads(o.align_ptr(), v, v.len());
        lemma_frame_bodies(a, v, slots, v.len());
    } else {
        lemma_none(o.consts);
    }
}

proof fn lemma_action_streams(o: Out, v: Seq<model::ButtonAction>, slots: Seq<int>, n: nat)
    requires
        n <= v.len(),
    ensures
        writing::action_streams(o, v, slots, n).consts == o.consts + action_constants(v, n),
    decreases n,
{
    if n > 0 {
        let a = writing::action_streams(o, v, slots, (n - 1) as nat);
        lemma_action_streams(o, v, slots, (n - 1) as nat);
        lemma_block(a, v[n - 1].actions, true);
        lemma_more(o.consts, action_constants(v, (n - 1) as nat), stream_constants(v[n - 1].actions));
    } else {
        lemma_none(o.consts);
    }
}

proof fn lemma_button(o: Out, b: model::Button)
    ensures
        writing::button(o, b).consts == o.consts + action_constants(b.actions, b.actions.len()),
{
    reveal(writing::button);
    let (h, p) = writing::button_head(o, b);
    assert(h.consts == o.consts);
    let v = h.align(4);
    lemma_vertices(v, b.hit_test_vertices, b.hit_test_vertices.len());
    let v2 = writing::vertices(v, b.hit_test_vertices, b.hit_test_vertices.len()).ptr_fill(
        p[0],
        v.len(),
    );
    let t = v2.align(2);
    lemma_triangles(t, b.hit_test_triangles, b.hit_test_triangles.len());
    let t2 = writing::triangles(t, b.hit_test_triangles, b.hit_test_triangles.len()).ptr_fill(
        p[1],
        t.len(),
    );
    let r = t2.align_ptr();
    lemma_button_records(r, b.records, b.records.len());
    let r2 = writing::button_records(r, b.records, b.records.len()).ptr_fill(p[2], r.len());
    let c = r2.align_ptr();
    lemma_action_heads(c, b.actions, b.actions.len());
    let (c2, slots) = writing::action_heads(c, b.actions, b.actions.len());
    lemma_action_streams(c2.ptr_fill(p[3], c.len()), b.actions, slots, b.actions.len());
}

proof fn lemma_character(o: Out, decoupled: bool, c: model::Character, index: nat)
    ensures
        writing::character(o, decoupled, c, index).consts == o.consts + slot_constants(
            model::CharacterSlot::Character(c),
        ),
{
    reveal(writing::character);
    lemma_none(o.consts);
    let a = writing::char_prelude(o, decoupled, c.type_id(), writing::decoupled_data(c));
    assert(a.consts == o.consts);
    match c {
        model::Character::Button(b) => lemma_button(a, b),
        model::Character::Sprite(f) => {
            lemma_frames(a.put_i32(f.len() as i32).ptr_slot().ptr_value(0), f);
        },
        model::Character::StaticText(t) => lemma_static_text(a, t),
        _ => {},
    }
}

proof fn lemma_characters(
    o: Out,
    decoupled: bool,
    root: int,
    v: Seq<model::CharacterSlot>,
    slots: Seq<int>,
    n: nat,
)
    requires
        n <= v.len(),
    ensures
        writing::characters(o, decoupled, root, v, slots, n).consts == o.consts + slots_constants(
            v,
            n,
        ),
    decreases n,
{
    lemma_none(o.consts);
    if n > 0 {
        let m = (n - 1) as nat;
        let a = writing::characters(o, decoupled, root, v, slots, m);
        lemma_characters(o, decoupled, root, v, slots, m);
        lemma_none(a.consts);
        if let model::CharacterSlot::Character(c) = v[n - 1] {
            lemma_character(a, decoupled, c, m);
        }
        lemma_more(o.consts, slots_constants(v, m), slot_constants(v[n - 1]));
    }
}

proof fn lemma_root(o: Out, decoupled: bool, m: model::Movie)
    ensures
        writing::root(o, decoupled, m).consts == o.consts + movie_constants(m),
{
    reveal(writing::root);
    let (h, p) = writing::root_head(o, decoupled, m);
    assert(h.consts == o.consts);
    let e = h.align_ptr();
    lemma_exports(e, m.exports, m.exports.len());
    let e2 = writing::exports(e, m.exports, m.exports.len()).ptr_fill(p[3], e.len());
    lemma_frames(e2, m.frames);
    let f2 = writing::frames(e2, m.frames).ptr_fill(
        p[0],
        writing::frames_place(e2, m.frames),
    );
    let c = f2.align_ptr();
    lemma_slot_row(c, m.characters.len());
    let (c2, slots) = writing::slot_row(c, m.characters.len());
    let b = c2.ptr_fill(p[1], c.len());
    lemma_characters(
        b,
        decoupled,
        o.align_ptr().len(),
        m.characters,
        slots,
        m.characters.len(),
    );
    let c3 = writing::characters(
        b,
        decoupled,
        o.align_ptr().len(),
        m.characters,
        slots,
        m.characters.len(),
    );
    lemma_imports(c3.align_ptr(), m.imports, m.imports.len());
    lemma_more(
        o.consts,
        frame_constants(m.frames, m.frames.len()),
        slots_constants(m.characters, m.characters.len()),
    );
}

/// The constant table of a written movie holds the constants of its streams one
/// after another, in the order in which an engine resolves them; how the movie is
/// laid out does not matter.
pub proof fn law_constant_order(f: model::AptFile, ps: nat, decoupled: bool, tag: Seq<u8>)
    ensures
        writing::const_part(f, ps, decoupled, tag).constants == movie_constants(f.movie),
{
    let o = Out::empty(ps).raw(tag);
    lemma_root(o, decoupled, f.movie);
    assert(o.consts + movie_constants(f.movie) =~= movie_constants(f.movie));
}

/// The items of a push are found under indices that follow those of all constants met
/// before.
pub proof fn law_constant_indices(o: Out, v: Seq<Value>, op: u8, i: int)
    requires
        0 <= i < v.len(),
    ensures
        encode::pool_items(o, op, v).consts == o.consts + v,
        encode::pool_items(o, op, v).consts[encode::counting(o.consts.len(), v.len())[i] as int]
            == v[i],
{
}

} // verus!
