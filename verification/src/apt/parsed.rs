//! What holds of every movie that was read.
use super::bytes;
use super::clean::{
    clean_block, clean_character, clean_control, clean_frame, clean_frames, clean_import,
    clean_insn, clean_movie, clean_names, clean_params, clean_place, clean_slot, clean_value,
    clean_values,
};
use super::constfile;
use super::decode::{self, Ctx, Raw};
use super::model::{self, Instruction, Value};
use super::opcode;
use super::parsing::{self, Px};
use super::readback::clean;
use super::readback_actions::{short, storable, storable_block, storable_stream};
use super::readback_movie::{
    seen_movie, seen_slot, storable_character, storable_control, storable_filter, storable_frame,
    storable_frames, storable_movie, storable_place,
};
use super::reader::{self, items, latin1, reps, terminator, Rd, Src};
use vstd::prelude::*;

verus! {

proof fn lemma_found(data: Seq<u8>, i: int)
    requires
        0 <= i,
    ensures
        terminator(data, i) matches Some(e) ==> {
            &&& i <= e < data.len()
            &&& forall|j: int| i <= j < e ==> data[j] != 0
        },
    decreases data.len() - i,
{
    if i < data.len() && data[i] != 0 {
        lemma_found(data, i + 1);
    }
}

/// A string that was read is clean.
broadcast proof fn string_clean(src: Src, c: Rd, off: u64)
    ensures
        clean((#[trigger] src.string_at(c, off)).0),
{
    lemma_found(src.data, off as int);
    if let Some(end) = terminator(src.data, off as int) {
        if off < src.len() {
            let b = src.data.subrange(off as int, end);
            assert forall|i: int| 0 <= i < b.len() implies (#[trigger] latin1(b)[i]) as u32 != 0 by {
                assert(b[i] == src.data[off + i]);
            }
        }
    }
}

/// A string behind a pointer is clean.
broadcast proof fn ptr_string_clean(src: Src, c: Rd)
    ensures
        clean((#[trigger] src.ptr_string(c)).0),
{
    let (off, d) = src.ptr(c);
    string_clean(src, d, off);
}

broadcast group group_strings {
    string_clean,
    ptr_string_clean,
}

/// What holds of one reading holds of each in a row.
proof fn lemma_reps_all<T>(step: spec_fn(Rd) -> (T, Rd), c: Rd, n: nat, p: spec_fn(T) -> bool)
    requires
        forall|d: Rd| p((#[trigger] step(d)).0),
    ensures
        reps(step, c, n).0.len() <= n,
        forall|i: int| 0 <= i < reps(step, c, n).0.len() ==> p(#[trigger] reps(step, c, n).0[i]),
    decreases n,
{
    if n > 0 {
        lemma_reps_all(step, c, (n - 1) as nat, p);
    }
}

proof fn lemma_reps_short<T>(step: spec_fn(Rd) -> (T, Rd), c: Rd, n: nat)
    ensures
        reps(step, c, n).0.len() <= n,
    decreases n,
{
    if n > 0 {
        lemma_reps_short(step, c, (n - 1) as nat);
    }
}

/// An instruction that a file can hold and whose strings are clean; those among its
/// constants where the constants it was read with are.
pub open spec fn fine(x: Ctx, insn: Instruction) -> bool {
    storable(insn) && clean_insn(insn, clean_values(x.consts))
}

proof fn lemma_pool_items(x: Ctx, c: Rd)
    ensures
        clean_values(x.consts) ==> clean_values(decode::pool_items(x, c).0),
        decode::pool_items(x, c).0.len() <= i32::MAX,
{
    let (n, c) = x.src.i32(x.src.align_ptr(c));
    let (off, c) = x.src.ptr(c);
    let p = |v: Value| clean_values(x.consts) ==> clean_value(v);
    lemma_reps_all(decode::item_step(x), c.at(off as int), items(n), p);
    let got = reps(decode::item_step(x), c.at(off as int), items(n)).0;
    assert forall|i: int| clean_values(x.consts) && 0 <= i < got.len() implies clean_value(
        #[trigger] got[i],
    ) by {
        assert(p(got[i]));
    }
}

proof fn lemma_try(x: Ctx, c: Rd)
    ensures
        fine(x, decode::try_payload(x, c).0.0),
{
    broadcast use group_strings;

    reveal(decode::try_payload);
}

#[verifier::rlimit(40)]
proof fn lemma_flat(x: Ctx, op: u8, at: int, c: Rd)
    ensures
        fine(x, decode::flat_insn(x, op, at, c).0.0),
{
    broadcast use group_strings;

    reveal(decode::flat_insn);
    lemma_try(x, c);
    lemma_pool_items(x, c);
}

proof fn lemma_function_head(x: Ctx, c: Rd)
    ensures
        clean(decode::function_head(x, c).0.name),
        clean_names(decode::function_head(x, c).0.params),
        decode::function_head(x, c).0.params.len() <= i32::MAX,
{
    broadcast use group_strings;

    reveal(decode::function_head);
    let (name, c) = x.src.ptr_string(x.src.align_ptr(c));
    let (n, c) = x.src.i32(x.src.align(c, 4));
    let (off, c) = x.src.ptr(c);
    let p = |s: Seq<char>| clean(s);
    lemma_reps_all(decode::name_step(x), c.at(off as int), items(n), p);
    let got = reps(decode::name_step(x), c.at(off as int), items(n)).0;
    assert forall|i: int| 0 <= i < got.len() implies clean(#[trigger] got[i]) by {
        assert(p(got[i]));
    }
}

proof fn lemma_function2_head(x: Ctx, c: Rd)
    ensures
        clean(decode::function2_head(x, c).0.name),
        clean_params(decode::function2_head(x, c).0.params),
        decode::function2_head(x, c).0.params.len() <= i32::MAX,
{
    broadcast use group_strings;

    reveal(decode::function2_head);
    let (name, c) = x.src.ptr_string(x.src.align_ptr(c));
    let (n, c) = x.src.i32(x.src.align(c, 4));
    let (register_count, c) = x.src.i16(c);
    let (flags, c) = x.src.i16(c);
    let (off, c) = x.src.ptr(c);
    let p = |s: (u32, Seq<char>)| clean(s.1);
    lemma_reps_all(decode::param_step(x), c.at(off as int), items(n), p);
    let got = reps(decode::param_step(x), c.at(off as int), items(n)).0;
    assert forall|i: int| 0 <= i < got.len() implies clean((#[trigger] got[i]).1) by {
        assert(p(got[i]));
    }
}

/// Whether the blob fits in memory, with pointers of 4 or 8 bytes.
pub open spec fn blob(x: Ctx) -> bool {
    &&& x.src.len() <= usize::MAX
    &&& x.src.ps == 4 || x.src.ps == 8
}

/// Whether the blob fits in memory, and its constants are clean.
pub open spec fn sound(x: Ctx) -> bool {
    blob(x) && clean_values(x.consts)
}

/// An instruction that was read is fine.
proof fn lemma_insn(x: Ctx, c: Rd)
    requires
        blob(x),
        0 <= c.pos,
    ensures
        fine(x, decode::insn(x, c).0.0),
    decreases x.src.len() - c.pos, 0int,
{
    let (op, d) = x.src.u8(c);
    if d.err is None {
        if op == opcode::DEFINE_FUNCTION {
            let (h, b) = decode::function_head(x, d);
            lemma_function_head(x, d);
            if b.err is None && c.pos < b.pos <= x.src.len() {
                lemma_block(x, b, Some(h.end));
            }
        } else if op == opcode::DEFINE_FUNCTION2 {
            let (h, b) = decode::function2_head(x, d);
            lemma_function2_head(x, d);
            if b.err is None && c.pos < b.pos <= x.src.len() {
                lemma_block(x, b, Some(h.end));
            }
        } else {
            lemma_flat(x, op, c.pos, d);
        }
    }
}

pub proof fn lemma_raws(x: Ctx, c: Rd, end: Option<int>)
    requires
        blob(x),
        0 <= c.pos,
    ensures
        forall|i: int|
            0 <= i < decode::raws(x, c, end).0.len() ==> fine(
                x,
                (#[trigger] decode::raws(x, c, end).0[i]).insn,
            ),
        decode::raws(x, c, end).0.len() <= x.src.len(),
        decode::raws(x, c, end).0.len() > 0 ==> decode::raws(x, c, end).0.len() <= x.src.len()
            - c.pos,
    decreases x.src.len() - c.pos, 1int,
{
    if !(c.err is Some || (end is Some && c.pos >= end->0)) {
        lemma_insn(x, c);
        let ((i, fix), d) = decode::insn(x, c);
        if d.err is Some || !(c.pos < d.pos <= x.src.len()) {
        } else if i is End && end is None {
        } else {
            lemma_raws(x, d, end);
            let raw = Raw { start: c.pos as u64, insn: i, fix };
            let rest = decode::raws(x, d, end).0;
            let all = seq![raw] + rest;
            assert forall|j: int| 0 <= j < all.len() implies fine(x, (#[trigger] all[j]).insn) by {
                if j > 0 {
                    assert(all[j] == rest[j - 1]);
                }
            }
        }
    }
}

proof fn lemma_resolve_one(x: Ctx, r: Raw, bounds: Seq<u64>, i: int)
    requires
        fine(x, r.insn),
    ensures
        fine(x, decode::resolve_one(r, bounds, i)),
        (decode::resolve_one(r, bounds, i) is End) == (r.insn is End),
{
}

proof fn lemma_block(x: Ctx, c: Rd, end: Option<int>)
    requires
        blob(x),
        0 < c.pos || c.pos == 0 && x.src.len() < usize::MAX,
    ensures
        storable_block(decode::block(x, c, end).0),
        clean_block(decode::block(x, c, end).0, clean_values(x.consts)),
    decreases x.src.len() - c.pos, 2int,
{
    lemma_raws(x, c, end);
    let (r, d) = decode::raws(x, c, end);
    if d.err is None {
        let b = decode::boundaries(r, d.pos);
        decode::lemma_resolve(r, b, c.pos, d, r.len());
        let got = decode::resolve(r, b, c.pos, d, r.len()).0;
        assert forall|j: int| 0 <= j < got.len() implies fine(x, #[trigger] got[j]) by {
            assert(got[j] == decode::resolve_one(r[j], b, j));
            lemma_resolve_one(x, r[j], b, j);
        }
    }
}

/// Aligning goes forward.
proof fn lemma_round(p: int, n: nat)
    requires
        n == 4 || n == 8,
    ensures
        p <= bytes::round_up(p, n),
{
}

/// Where reading stands inside the blob, behind `from`.
pub open spec fn inside(x: Ctx, from: int, c: Rd) -> bool {
    c.err is None ==> from <= c.pos <= x.src.len()
}

proof fn lemma_inside_pool(x: Ctx, c: Rd)
    requires
        blob(x),
    ensures
        inside(x, c.pos, decode::pool_items(x, c).1),
{
    let (n, c1) = x.src.i32(x.src.align_ptr(c));
    let (off, c2) = x.src.ptr(c1);
    lemma_round(c.pos, x.src.ps);
    lemma_round(c1.pos, x.src.ps);
    let d = reps(decode::item_step(x), c2.at(off as int), items(n)).1;
    if c2.err is Some {
        assert(d.err is Some);
    }
}

pub proof fn lemma_inside_try(x: Ctx, c: Rd)
    requires
        blob(x),
    ensures
        inside(x, c.pos, decode::try_payload(x, c).1),
{
    reveal(decode::try_payload);
    lemma_round(c.pos, x.src.ps);
    let (_, c1) = x.src.u32(x.src.align_ptr(c));
    let (_, c2) = x.src.u32(c1);
    let (_, c3) = x.src.u32(c2);
    let (_, c4) = x.src.u8(c3);
    let c5 = x.src.u8(c4).1;
    let c6 = x.src.u8(c5).1;
    let (_, c7) = x.src.u8(c6);
    lemma_round(c7.pos, x.src.ps);
}

/// Reading an instruction without a body stays inside the blob.
#[verifier::rlimit(60)]
proof fn lemma_inside_flat(x: Ctx, op: u8, at: int, c: Rd)
    requires
        blob(x),
        c.pos <= x.src.len(),
    ensures
        inside(x, c.pos, decode::flat_insn(x, op, at, c).1),
{
    reveal(decode::flat_insn);
    lemma_inside_try(x, c);
    lemma_inside_pool(x, c);
    lemma_round(c.pos, x.src.ps);
    let s = x.src.ptr_string(x.src.align_ptr(c)).1;
    lemma_round(x.src.align_ptr(c).pos, x.src.ps);
    lemma_round(s.pos, x.src.ps);
}

proof fn lemma_inside_extent(x: Ctx, c: Rd)
    requires
        blob(x),
    ensures
        inside(x, c.pos, decode::body_extent(x, c).1),
        decode::body_extent(x, c).1.pos <= u64::MAX ==> decode::body_extent(x, c).1.pos
            <= decode::body_extent(x, c).0,
{
    let (size, c1) = x.src.i32(x.src.align(c, 4));
    let c2 = x.src.i32(x.src.align_ptr(c1)).1;
    lemma_round(c.pos, 4);
    lemma_round(c1.pos, x.src.ps);
    lemma_round(c2.pos, x.src.ps);
}

proof fn lemma_inside_head(x: Ctx, c: Rd)
    requires
        blob(x),
    ensures
        ({
            let (h, b) = decode::function_head(x, c);
            inside(x, c.pos, b) && (b.err is None ==> b.pos <= h.end)
        }),
{
    reveal(decode::function_head);
    let a = x.src.align_ptr(c);
    let (_, c1) = x.src.ptr_string(a);
    let (n, c2) = x.src.i32(x.src.align(c1, 4));
    let (off, c3) = x.src.ptr(c2);
    lemma_round(c.pos, x.src.ps);
    lemma_round(a.pos, x.src.ps);
    lemma_round(c1.pos, 4);
    lemma_round(c2.pos, x.src.ps);
    let d = reps(decode::name_step(x), c3.at(off as int), items(n)).1;
    lemma_inside_extent(x, d.at(c3.pos));
    if c3.err is Some {
        assert(d.err is Some);
    }
}

proof fn lemma_inside_head2(x: Ctx, c: Rd)
    requires
        blob(x),
    ensures
        ({
            let (h, b) = decode::function2_head(x, c);
            inside(x, c.pos, b) && (b.err is None ==> b.pos <= h.end)
        }),
{
    reveal(decode::function2_head);
    let a = x.src.align_ptr(c);
    let (_, c1) = x.src.ptr_string(a);
    let (n, c2) = x.src.i32(x.src.align(c1, 4));
    let (_, c3) = x.src.i16(c2);
    let (_, c4) = x.src.i16(c3);
    let (off, c5) = x.src.ptr(c4);
    lemma_round(c.pos, x.src.ps);
    lemma_round(a.pos, x.src.ps);
    lemma_round(c1.pos, 4);
    lemma_round(c4.pos, x.src.ps);
    let d = reps(decode::param_step(x), c5.at(off as int), items(n)).1;
    lemma_inside_extent(x, d.at(c5.pos));
    if c5.err is Some {
        assert(d.err is Some);
    }
}

/// Reading an instruction goes forward and stays inside the blob.
pub proof fn lemma_inside_insn(x: Ctx, c: Rd)
    requires
        blob(x),
        0 <= c.pos,
    ensures
        decode::insn(x, c).1.err is None ==> c.pos < decode::insn(x, c).1.pos <= x.src.len(),
    decreases x.src.len() - c.pos, 0int,
{
    let (op, d) = x.src.u8(c);
    if d.err is None {
        if op == opcode::DEFINE_FUNCTION {
            let (h, b) = decode::function_head(x, d);
            lemma_inside_head(x, d);
            if b.err is None {
                lemma_inside_body(x, b, h.end);
            }
        } else if op == opcode::DEFINE_FUNCTION2 {
            let (h, b) = decode::function2_head(x, d);
            lemma_inside_head2(x, d);
            if b.err is None {
                lemma_inside_body(x, b, h.end);
            }
        } else {
            lemma_inside_flat(x, op, c.pos, d);
        }
    }
}

/// A body that could be read ends inside the blob.
proof fn lemma_inside_body(x: Ctx, c: Rd, end: int)
    requires
        blob(x),
        0 <= c.pos <= x.src.len(),
    ensures
        decode::block(x, c, Some(end)).1.err is None ==> end <= x.src.len(),
    decreases x.src.len() - c.pos, 2int,
{
    lemma_inside_raws(x, c, Some(end));
    let (r, d) = decode::raws(x, c, Some(end));
    if d.err is None {
        decode::lemma_resolve(r, decode::boundaries(r, d.pos), c.pos, d, r.len());
    }
}

proof fn lemma_inside_raws(x: Ctx, c: Rd, end: Option<int>)
    requires
        blob(x),
        0 <= c.pos <= x.src.len(),
    ensures
        end matches Some(e) ==> decode::raws(x, c, end).1.err is None ==> e <= x.src.len(),
    decreases x.src.len() - c.pos, 1int,
{
    if !(c.err is Some || (end is Some && c.pos >= end->0)) {
        lemma_inside_insn(x, c);
        let ((i, fix), d) = decode::insn(x, c);
        if d.err is Some || !(c.pos < d.pos <= x.src.len()) {
        } else if i is End && end is None {
        } else {
            lemma_inside_raws(x, d, end);
        }
    }
}

/// A stream ends with its only `End`.
proof fn lemma_ending(x: Ctx, c: Rd)
    requires
        blob(x),
        0 <= c.pos,
        decode::raws(x, c, None).1.err is None,
    ensures
        ({
            let r = decode::raws(x, c, None).0;
            &&& 0 < r.len()
            &&& r[r.len() - 1].insn is End
            &&& forall|i: int| 0 <= i < r.len() - 1 ==> !((#[trigger] r[i]).insn is End)
        }),
    decreases x.src.len() - c.pos,
{
    lemma_inside_insn(x, c);
    let ((i, fix), d) = decode::insn(x, c);
    if !(i is End) {
        lemma_ending(x, d);
        let raw = Raw { start: c.pos as u64, insn: i, fix };
        let rest = decode::raws(x, d, None).0;
        let all = seq![raw] + rest;
        assert forall|j: int| 0 <= j < all.len() - 1 implies !((#[trigger] all[j]).insn is End) by {
            if j > 0 {
                assert(all[j] == rest[j - 1]);
            }
        }
    }
}

/// Whether a stream is not empty, and short.
pub open spec fn whole_stream(v: Seq<Instruction>, width: nat) -> bool {
    v.len() > 0 && short(v, width)
}

/// Instructions that could stand in a file, and that a file can hold as they are
/// where there are any and they are short.
pub open spec fn read_stream(v: Seq<Instruction>, width: nat) -> bool {
    clean_block(v, true) && (whole_stream(v, width) ==> storable_stream(v, width))
}

/// Instructions that were read up to their `End`.
pub proof fn lemma_decoded(x: Ctx, start: Rd, width: nat)
    requires
        blob(x),
        0 < start.pos || start.pos == 0 && x.src.len() < usize::MAX,
    ensures
        ({
            let v = decode::block(x, start, None).0;
            &&& clean_block(v, clean_values(x.consts))
            &&& whole_stream(v, width) ==> storable_stream(v, width)
        }),
        decode::block(x, start, None).1.err is None ==> decode::block(x, start, None).0.len() > 0,
{
    lemma_block(x, start, None);
    let (r, d) = decode::raws(x, start, None);
    if d.err is None {
        lemma_ending(x, start);
        lemma_raws(x, start, None);
        let b = decode::boundaries(r, d.pos);
        decode::lemma_resolve(r, b, start.pos, d, r.len());
        let got = decode::resolve(r, b, start.pos, d, r.len()).0;
        assert forall|j: int| 0 <= j < got.len() implies (#[trigger] got[j] is End) == (
        r[j].insn is End) by {
            assert(got[j] == decode::resolve_one(r[j], b, j));
            lemma_resolve_one(x, r[j], b, j);
        }
    }
}

/// A stream that was read.
proof fn lemma_stream(x: Ctx, c: Rd, off: u64, width: nat)
    requires
        sound(x),
    ensures
        read_stream(decode::stream(x, c, off).0, width),
{
    if c.err is None && off != 0 {
        lemma_decoded(x, c.at(off as int), width);
    }
}

/// Whether no stream of a placement is empty or too long.
pub open spec fn whole_place(p: model::PlaceObject, width: nat) -> bool {
    p.clip_actions matches Some(v) ==> forall|i: int|
        0 <= i < v.len() ==> whole_stream((#[trigger] v[i]).actions, width)
}

/// Whether no stream of a control is empty or too long.
pub open spec fn whole_control(c: model::Control, width: nat) -> bool {
    match c {
        model::Control::Action(s) => whole_stream(s, width),
        model::Control::PlaceObject(p) => whole_place(p, width),
        model::Control::InitAction { actions, .. } => whole_stream(actions, width),
        _ => true,
    }
}

pub open spec fn whole_frame(f: model::Frame, width: nat) -> bool {
    forall|i: int| 0 <= i < f.controls.len() ==> whole_control(#[trigger] f.controls[i], width)
}

pub open spec fn whole_frames(v: Seq<model::Frame>, width: nat) -> bool {
    forall|i: int| 0 <= i < v.len() ==> whole_frame(#[trigger] v[i], width)
}

/// Whether no stream of a character is empty or too long.
pub open spec fn whole_character(c: model::Character, width: nat) -> bool {
    match c {
        model::Character::Button(b) => forall|i: int|
            0 <= i < b.actions.len() ==> whole_stream((#[trigger] b.actions[i]).actions, width),
        model::Character::Sprite(f) => whole_frames(f, width),
        _ => true,
    }
}

pub open spec fn whole_slot(x: model::CharacterSlot, width: nat) -> bool {
    match x {
        model::CharacterSlot::Character(c) => whole_character(c, width),
        _ => true,
    }
}

/// Whether no stream of a movie is empty, and each stays below 2 GiB with pointers of
/// `width` bytes. A stream of no instructions is what a null pointer stands for; it is
/// written as a lone `End`.
pub open spec fn whole_movie(m: model::Movie, width: nat) -> bool {
    &&& whole_frames(m.frames, width)
    &&& forall|i: int| 0 <= i < m.characters.len() ==> whole_slot(#[trigger] m.characters[i], width)
}

proof fn lemma_filter(src: Src, c: Rd)
    ensures
        storable_filter(parsing::filter(src, c).0),
{
    reveal(parsing::filter);
    let (id, c) = src.u32(c);
    if c.err is None {
        if id == 4 || id == 7 {
            let (n, c) = src.u32(c);
            let (colors_off, c) = src.ptr(c);
            let (ratios_off, c) = src.ptr(c);
            let (_, c) = src.u32(c);
            let (_, c) = src.u32(c);
            let (_, c) = src.u32(c);
            let (_, c) = src.u32(c);
            let (_, c) = src.u16(c);
            let (_, c) = src.u16(c);
            lemma_reps_short(parsing::u32_step(src), c.at(colors_off as int), n as nat);
        } else if id == 6 {
            reader::lemma_reps_len(parsing::u32_step(src), c, 20);
        }
    }
}

proof fn lemma_filter_row(src: Src, c: Rd, n: u32)
    ensures
        ({
            let v = reps(parsing::filter_step(src), c, n as nat).0;
            &&& v.len() <= u32::MAX
            &&& forall|i: int| 0 <= i < v.len() ==> storable_filter(#[trigger] v[i])
        }),
{
    let p = |f: model::Filter| storable_filter(f);
    assert forall|d: Rd| p((#[trigger] parsing::filter_step(src)(d)).0) by {
        let (off, c) = src.ptr(d);
        lemma_filter(src, c.at(off as int));
    }
    lemma_reps_all(parsing::filter_step(src), c, n as nat, p);
    let v = reps(parsing::filter_step(src), c, n as nat).0;
    assert forall|i: int| 0 <= i < v.len() implies storable_filter(#[trigger] v[i]) by {
        assert(p(v[i]));
    }
}

proof fn lemma_event_row(x: Ctx, c: Rd, n: i32, width: nat)
    requires
        sound(x),
    ensures
        ({
            let v = reps(parsing::event_step(x), c, items(n)).0;
            &&& v.len() <= i32::MAX
            &&& forall|i: int| 0 <= i < v.len() ==> read_stream((#[trigger] v[i]).actions, width)
        }),
{
    let p = |e: model::EventAction| read_stream(e.actions, width);
    assert forall|d: Rd| p((#[trigger] parsing::event_step(x)(d)).0) by {
        let (_, c) = x.src.i32(x.src.align_ptr(d));
        let (_, c) = x.src.i32(c);
        let (off, c) = x.src.ptr(c);
        lemma_stream(x, c, off, width);
    }
    lemma_reps_all(parsing::event_step(x), c, items(n), p);
    let v = reps(parsing::event_step(x), c, items(n)).0;
    assert forall|i: int| 0 <= i < v.len() implies read_stream((#[trigger] v[i]).actions, width) by {
        assert(p(v[i]));
    }
}

/// A placement that was read.
proof fn lemma_place(x: Ctx, c: Rd, extended: bool, width: nat)
    requires
        sound(x),
    ensures
        ({
            let p = parsing::place_object(x, c, extended).0;
            clean_place(p) && (whole_place(p, width) ==> storable_place(p, width))
        }),
{
    broadcast use group_strings;

    reveal(parsing::place_object);
    let (h, c1) = parsing::place_head(x.src, c);
    let (n, d) = x.src.i32(c1.at(h.actions as int));
    let (blocks_off, d) = x.src.ptr(d);
    lemma_event_row(x, d.at(blocks_off as int), n, width);
    let c2 = parsing::clip_actions(x, c1, h.flags, h.actions).1;
    let (mode, c3) = x.src.i32(c2);
    let (n, c4) = x.src.u32(c3);
    let (off, c5) = x.src.ptr(c4);
    lemma_filter_row(x.src, c5.at(off as int), n);
}

/// A control that was read.
proof fn lemma_control(x: Ctx, c: Rd, width: nat)
    requires
        sound(x),
    ensures
        ({
            let k = parsing::control(x, c).0;
            clean_control(k) && (whole_control(k, width) ==> storable_control(k, width))
        }),
{
    broadcast use group_strings;

    reveal(parsing::control);
    let src = x.src;
    let (t, c) = src.i32(c);
    let c = src.align_ptr(c);
    if t == 1 {
        let (off, c) = src.ptr(c);
        lemma_stream(x, c, off, width);
    } else if t == 3 || t == 9 {
        lemma_place(x, c, t == 9, width);
    } else if t == 8 {
        let (_, c) = src.i32(c);
        let (off, c) = src.ptr(c);
        lemma_stream(x, c, off, width);
    }
}

/// A frame that was read.
proof fn lemma_frame(x: Ctx, c: Rd, width: nat)
    requires
        sound(x),
    ensures
        ({
            let f = parsing::frame(x, c).0;
            clean_frame(f) && (whole_frame(f, width) ==> storable_frame(f, width))
        }),
{
    let (n, c) = x.src.i32(x.src.align_ptr(c));
    let (off, c) = x.src.ptr(c);
    let p = |k: model::Control|
        clean_control(k) && (whole_control(k, width) ==> storable_control(k, width));
    assert forall|d: Rd| p((#[trigger] parsing::control_step(x)(d)).0) by {
        let (off, c) = x.src.ptr(d);
        lemma_control(x, c.at(off as int), width);
    }
    lemma_reps_all(parsing::control_step(x), c.at(off as int), items(n), p);
    let v = reps(parsing::control_step(x), c.at(off as int), items(n)).0;
    assert forall|i: int| 0 <= i < v.len() implies clean_control(#[trigger] v[i]) && (
        whole_control(v[i], width) ==> storable_control(v[i], width)) by {
        assert(p(v[i]));
    }
}

/// Frames that were read.
proof fn lemma_frames(x: Ctx, c: Rd, off: u64, n: i32, width: nat)
    requires
        sound(x),
    ensures
        ({
            let v = parsing::frames(x, c, off, n).0;
            clean_frames(v) && (whole_frames(v, width) ==> storable_frames(v, width))
        }),
{
    let p = |f: model::Frame|
        clean_frame(f) && (whole_frame(f, width) ==> storable_frame(f, width));
    assert forall|d: Rd| p((#[trigger] parsing::frame_step(x)(d)).0) by {
        lemma_frame(x, d, width);
    }
    lemma_reps_all(parsing::frame_step(x), c.at(off as int), items(n), p);
    let v = parsing::frames(x, c, off, n).0;
    assert forall|i: int| 0 <= i < v.len() implies clean_frame(#[trigger] v[i]) && (
        whole_frame(v[i], width) ==> storable_frame(v[i], width)) by {
        assert(p(v[i]));
    }
}

proof fn lemma_action_row(x: Ctx, c: Rd, n: i32, width: nat)
    requires
        sound(x),
    ensures
        ({
            let v = reps(parsing::action_step(x), c, items(n)).0;
            &&& v.len() <= i32::MAX
            &&& forall|i: int| 0 <= i < v.len() ==> read_stream((#[trigger] v[i]).actions, width)
        }),
{
    let p = |e: model::ButtonAction| read_stream(e.actions, width);
    assert forall|d: Rd| p((#[trigger] parsing::action_step(x)(d)).0) by {
        let (_, c) = x.src.i32(x.src.align_ptr(d));
        let (off, c) = x.src.ptr(c);
        lemma_stream(x, c, off, width);
    }
    lemma_reps_all(parsing::action_step(x), c, items(n), p);
    let v = reps(parsing::action_step(x), c, items(n)).0;
    assert forall|i: int| 0 <= i < v.len() implies read_stream((#[trigger] v[i]).actions, width) by {
        assert(p(v[i]));
    }
}

proof fn lemma_triangle_row(src: Src, c: Rd, n: i32)
    ensures
        ({
            let v = reps(parsing::triangle_step(src), c, items(n)).0;
            &&& v.len() <= i32::MAX
            &&& forall|i: int| 0 <= i < v.len() ==> (#[trigger] v[i]).len() == 3
        }),
{
    let p = |t: Seq<i16>| t.len() == 3;
    lemma_reps_all(parsing::triangle_step(src), c, items(n), p);
    let v = reps(parsing::triangle_step(src), c, items(n)).0;
    assert forall|i: int| 0 <= i < v.len() implies (#[trigger] v[i]).len() == 3 by {
        assert(p(v[i]));
    }
}

proof fn lemma_record_row(src: Src, c: Rd, n: i32)
    ensures
        ({
            let v = reps(parsing::record_step(src), c, items(n)).0;
            &&& v.len() <= i32::MAX
            &&& forall|i: int|
                0 <= i < v.len() ==> (#[trigger] v[i]).cxform.scale.len() == 4
                    && v[i].cxform.translate.len() == 4
        }),
{
    let p = |r: model::ButtonRecord| r.cxform.scale.len() == 4 && r.cxform.translate.len() == 4;
    lemma_reps_all(parsing::record_step(src), c, items(n), p);
    let v = reps(parsing::record_step(src), c, items(n)).0;
    assert forall|i: int| 0 <= i < v.len() implies (#[trigger] v[i]).cxform.scale.len() == 4
        && v[i].cxform.translate.len() == 4 by {
        assert(p(v[i]));
    }
}

/// A button that was read.
proof fn lemma_button(x: Ctx, c: Rd, width: nat)
    requires
        sound(x),
    ensures
        ({
            let b = model::Character::Button(parsing::button(x, c).0);
            clean_character(b) && (whole_character(b, width) ==> storable_character(b, width))
        }),
{
    reveal(parsing::button);
    let src = x.src;
    let (_, c) = src.i32(c);
    let (_, c) = parsing::rect(src, c);
    let (n_triangles, c) = src.i32(c);
    let (n_vertices, c) = src.i32(c);
    let (vertices_off, c) = src.ptr(c);
    let (indices_off, c) = src.ptr(c);
    let (n_records, c) = src.i32(c);
    let (records_off, c) = src.ptr(c);
    let (n_conditions, c) = src.i32(c);
    let (conditions_off, c) = src.ptr(c);
    let (_, c) = src.ptr(c);
    let c0 = c.at(vertices_off as int);
    lemma_reps_short(parsing::vertex_step(src), c0, items(n_vertices));
    let c1 = reps(parsing::vertex_step(src), c0, items(n_vertices)).1.at(indices_off as int);
    lemma_triangle_row(src, c1, n_triangles);
    let c2 = reps(parsing::triangle_step(src), c1, items(n_triangles)).1.at(records_off as int);
    lemma_record_row(src, c2, n_records);
    let c3 = reps(parsing::record_step(src), c2, items(n_records)).1.at(conditions_off as int);
    lemma_action_row(x, c3, n_conditions, width);
}

/// A text that was read.
proof fn lemma_static_text(src: Src, c: Rd, width: nat)
    ensures
        storable_character(model::Character::StaticText(parsing::static_text(src, c).0), width),
{
    let (_, c) = parsing::rect(src, c);
    let (_, c) = parsing::matrix(src, c);
    let (n, c) = src.i32(c);
    let (off, c) = src.ptr(c);
    let p = |r: model::StaticTextRecord|
        r.cxform.scale.len() == 4 && r.cxform.translate.len() == 4 && r.glyphs.len() <= i32::MAX;
    assert forall|d: Rd| p((#[trigger] parsing::text_step(src)(d)).0) by {
        let (_, c) = src.i32(src.align_ptr(d));
        let (_, c) = parsing::float_cxform(src, c);
        let (_, c) = src.u32(c);
        let (_, c) = src.u32(c);
        let (_, c) = src.u32(c);
        let (n, c) = src.i32(c);
        let (off, c) = src.ptr(c);
        lemma_reps_short(parsing::glyph_step(src), c.at(off as int), items(n));
    }
    lemma_reps_all(parsing::text_step(src), c.at(off as int), items(n), p);
    let v = reps(parsing::text_step(src), c.at(off as int), items(n)).0;
    assert forall|i: int| 0 <= i < v.len() implies p(#[trigger] v[i]) by {}
    assert forall|i: int| 0 <= i < v.len() implies (#[trigger] v[i]).cxform.scale.len() == 4
        && v[i].cxform.translate.len() == 4 && v[i].glyphs.len() <= i32::MAX by {
        assert(p(v[i]));
    }
}

proof fn lemma_word_id(data: u32)
    ensures
        ((data & 0x7FFF) as u16) & 0x7FFF == (data & 0x7FFF) as u16,
{
    assert(((data & 0x7FFF) as u16) & 0x7FFF == (data & 0x7FFF) as u16) by (bit_vector);
}

/// A character that was read; its own layout stores all of it.
proof fn lemma_character(p: Px, c: Rd, width: nat)
    requires
        sound(p.x),
    ensures
        ({
            let k = parsing::character(p, c).0;
            &&& clean_character(k)
            &&& whole_character(k, width) ==> storable_character(k, width)
            &&& seen_slot(model::CharacterSlot::Character(k), p.decoupled)
                == model::CharacterSlot::Character(k)
        }),
{
    broadcast use group_strings;

    reveal(parsing::character);
    let src = p.x.src;
    let ((t, data), c) = parsing::char_header(p, c);
    lemma_word_id(data);
    if c.err is Some {
    } else if t == 3 {
        let (_, c) = src.ptr_string(c);
        let (n, c) = src.i32(c);
        let (off, c) = src.ptr(c);
        lemma_reps_short(parsing::index_step(src), c.at(off as int), items(n));
    } else if t == 4 {
        lemma_button(p.x, c, width);
    } else if t == 5 {
        let (n, c) = src.i32(c);
        let (off, c) = src.ptr(c);
        let c = src.ptr(c).1;
        lemma_frames(p.x, c, off, n, width);
    } else if t == 10 {
        lemma_static_text(src, c, width);
    }
}

/// A character slot that was read.
pub open spec fn read_slot(x: model::CharacterSlot, decoupled: bool, width: nat) -> bool {
    &&& seen_slot(x, decoupled) == x
    &&& x matches model::CharacterSlot::Character(c) ==> {
        clean_character(c) && (whole_character(c, width) ==> storable_character(c, width))
    }
}

/// Character slots that were read: the first one is no character.
proof fn lemma_slots(p: Px, root: u64, c: Rd, n: nat, width: nat)
    requires
        sound(p.x),
    ensures
        ({
            let v = parsing::char_slots(p, root, c, n).0;
            &&& v.len() <= n
            &&& 0 < v.len() ==> !(v[0] is Character)
            &&& forall|i: int| 0 <= i < v.len() ==> read_slot(#[trigger] v[i], p.decoupled, width)
        }),
    decreases n,
{
    if n > 0 && c.err is None {
        let m = (n - 1) as nat;
        lemma_slots(p, root, c, m, width);
        lemma_slots_len(p, root, c, m);
        let d = parsing::char_slots(p, root, c, m).1;
        let (off, e) = p.x.src.ptr(d);
        lemma_character(p, e.at(off as int), width);
    }
}

proof fn lemma_slots_len(p: Px, root: u64, c: Rd, n: nat)
    requires
        c.err is None,
    ensures
        parsing::char_slots(p, root, c, n).0.len() == n,
    decreases n,
{
    if n > 0 {
        lemma_slots_len(p, root, c, (n - 1) as nat);
    }
}

/// A movie that was read can be stored as it is where no stream of it is empty, and
/// its own layout stores all of it.
#[verifier::rlimit(40)]
proof fn lemma_movie(p: Px, off: u64, width: nat)
    requires
        sound(p.x),
    ensures
        ({
            let m = parsing::root(p, off).0;
            &&& clean_movie(m)
            &&& whole_movie(m, width) ==> storable_movie(m, width)
            &&& seen_movie(m, p.decoupled) == m
        }),
{
    broadcast use group_strings;

    reveal(parsing::root);
    let src = p.x.src;
    let (h, c0) = parsing::root_head(p, Rd::start(off as int));
    lemma_frames(p.x, c0, h.frames, h.n_frames, width);
    let c1 = parsing::frames(p.x, c0, h.frames, h.n_frames).1.at(h.characters as int);
    lemma_slots(p, off, c1, items(h.n_characters), width);
    let (slots, c2) = parsing::char_slots(p, off, c1, items(h.n_characters));
    let ci = c2.at(h.imports as int);
    let pi = |x: model::Import| clean_import(x);
    lemma_reps_all(parsing::import_step(src), ci, items(h.n_imports), pi);
    let (imports, c3) = reps(parsing::import_step(src), ci, items(h.n_imports));
    let ce = c3.at(h.exports as int);
    let pe = |x: model::Export| clean(x.name);
    lemma_reps_all(parsing::export_step(src), ce, items(h.n_exports), pe);
    let exports = reps(parsing::export_step(src), ce, items(h.n_exports)).0;
    let m = parsing::root(p, off).0;
    assert(m.imports == imports && m.exports == exports && m.characters == slots);
    assert forall|i: int| 0 <= i < imports.len() implies clean_import(#[trigger] imports[i]) by {
        assert(pi(imports[i]));
    }
    assert forall|i: int| 0 <= i < exports.len() implies clean((#[trigger] exports[i]).name) by {
        assert(pe(exports[i]));
    }
    assert forall|i: int| 0 <= i < slots.len() implies seen_slot(#[trigger] slots[i], p.decoupled)
        == slots[i] by {
        assert(read_slot(slots[i], p.decoupled, width));
    }
    assert(seen_movie(m, p.decoupled).characters =~= m.characters);
    assert forall|i: int| 0 <= i < slots.len() implies clean_slot(#[trigger] slots[i]) by {
        assert(read_slot(slots[i], p.decoupled, width));
    }
    if whole_movie(m, width) {
        assert forall|i: int| 0 <= i < slots.len() implies (#[trigger] slots[i] matches
            model::CharacterSlot::Character(c) ==> storable_character(c, width)) by {
            assert(read_slot(slots[i], p.decoupled, width));
            assert(whole_slot(m.characters[i], width));
        }
    }
}

/// The constants of a file that was read are clean.
pub proof fn lemma_constants(src: Src)
    ensures
        clean_values(constfile::read_const(src).0.constants),
        constfile::read_const(src).1.err is None ==> src.len() >= 20,
{
    broadcast use group_strings;

    let start = if src.len() < 20 {
        Rd::start(0).fail(model::Error::BadConstMagic)
    } else {
        Rd::start(20)
    };
    let (_, c) = src.ptr(start);
    let (n, c) = src.i32(c);
    let (table, c) = src.ptr(c);
    let p = |v: Value| clean_value(v);
    lemma_reps_all(constfile::entry_step(src), c.at(table as int), items(n), p);
    let v = reps(constfile::entry_step(src), c.at(table as int), items(n)).0;
    assert forall|i: int| 0 <= i < v.len() implies clean_value(#[trigger] v[i]) by {
        assert(p(v[i]));
    }
    if src.len() < 20 {
        assert(src.ptr(start).1.err is Some);
    }
}

/// The strings of a movie that was read are clean, and the layout that it was read from
/// stores all of it. With pointers of `width` bytes it can be stored as it is where no
/// stream of it is empty or too long.
pub proof fn law_read_movies(apt: Seq<u8>, consts: Seq<u8>, f: model::AptFile, width: nat)
    requires
        apt.len() <= usize::MAX,
        parsing::apt_file(apt, consts) == Ok::<model::AptFile, model::Error>(f),
    ensures
        f.const_magic.len() == 20,
        seen_movie(f.movie, f.header.decoupled) == f.movie,
        clean_movie(f.movie),
        whole_movie(f.movie, width) ==> storable_movie(f.movie, width),
{
    let h = parsing::header(apt)->Ok_0;
    let ps = h.ptr_size.width();
    let src = Src { data: consts, ps };
    let (k, c) = constfile::read_const(src);
    lemma_constants(src);
    let p = Px {
        x: Ctx { src: Src { data: apt, ps }, consts: k.constants },
        decoupled: h.decoupled,
    };
    lemma_movie(p, k.main_character_offset, width);
}

} // verus!
