//! Reading back action streams.
use super::actions::DictRefKind;
use super::bytes::{self, capacity, round_up, un_le};
use super::decode::{self, Ctx, Fix, Raw};
use super::encode;
use super::flush::ptrs;
use super::layout;
use super::model::{CatchVar, Instruction, Value};
use super::opcode;
use super::out::{self, Out};
use super::readback::{self, fits, here, settled, src, target};
use super::reader::{items, reps, sat, Rd};
use vstd::prelude::*;

verus! {

/// The finished blob and its constants as a reader sees them.
pub open spec fn ctx(fin: Out) -> Ctx {
    Ctx { src: src(fin), consts: fin.consts }
}

/// An instruction that a file can hold as it is.
pub open spec fn storable(insn: Instruction) -> bool
    decreases insn, 0nat,
{
    match insn {
        Instruction::Simple(op) => decode::simple(op),
        Instruction::DictRef { kind, index } => kind == DictRefKind::PushWord || index <= 0xFF,
        Instruction::Try { has_catch, catch_var, .. } => match catch_var {
            Some(CatchVar::Register(_)) => true,
            Some(CatchVar::Variable(_)) => has_catch,
            None => !has_catch,
        },
        Instruction::Push(v) => v.len() <= i32::MAX,
        Instruction::DefineDictionary(v) => v.len() <= i32::MAX,
        Instruction::DefineFunction { params, body, .. } => {
            params.len() <= i32::MAX && storable_block(body)
        },
        Instruction::DefineFunction2 { params, body, .. } => {
            params.len() <= i32::MAX && storable_block(body)
        },
        _ => true,
    }
}

/// Instructions that a file can hold as they are.
pub open spec fn storable_block(v: Seq<Instruction>) -> bool
    decreases v, 1nat,
{
    &&& v.len() < usize::MAX
    &&& forall|i: int| 0 <= i < v.len() ==> storable(#[trigger] v[i])
}

/// Whether a stream stays below 2 GiB wherever it is put with pointers of this width, so
/// that distances in it and the sizes of its bodies fit in 4 bytes.
pub open spec fn short(v: Seq<Instruction>, ps: nat) -> bool {
    forall|o: Out|
        o.ok() && o.ps() == ps ==> (#[trigger] encode::stream(o, v)).len() - o.len() <= i32::MAX
}

/// A stream that a file with pointers of this width can hold as it is: it ends with its
/// only `End`, and it is short.
pub open spec fn storable_stream(v: Seq<Instruction>, ps: nat) -> bool {
    &&& storable_block(v)
    &&& short(v, ps)
    &&& 0 < v.len()
    &&& v[v.len() - 1] is End
    &&& forall|i: int| 0 <= i < v.len() - 1 ==> !((#[trigger] v[i]) is End)
}

/// The instruction as it is read before its distances are resolved.
pub open spec fn blank(insn: Instruction) -> Instruction {
    decode::with_counts(decode::with_target(insn, 0), 0, 0, 0)
}

/// The distances of an instruction that starts at `start` and ends at `end`, as
/// they stand in the blob.
pub open spec fn raw_fix(fin: Out, insn: Instruction, start: int, end: int) -> Fix {
    let p = round_up(start + 1, fin.ps());
    let b = fin.img.bytes;
    match insn {
        Instruction::BranchAlways { .. } => Fix::Target(
            (end + (un_le(b, p, 4) as u32) as i32) as u64,
        ),
        Instruction::BranchIfTrue { .. } => Fix::Target(
            (end + (un_le(b, p, 4) as u32) as i32) as u64,
        ),
        Instruction::BranchIfFalse { .. } => Fix::Target(
            (end + (un_le(b, p, 4) as u32) as i32) as u64,
        ),
        Instruction::With { .. } => if fin.ps() == 4 {
            Fix::Target((end + (un_le(b, p, 4) as u32) as i32) as u64)
        } else {
            Fix::Target((end + (un_le(b, p, 8) as u64) as i64) as u64)
        },
        Instruction::Try { .. } => {
            let t = sat(end, (un_le(b, p, 4) as u32) as int);
            let k = sat(t, (un_le(b, p + 4, 4) as u32) as int);
            let f = sat(k, (un_le(b, p + 8, 4) as u32) as int);
            Fix::TryEnds(t as u64, k as u64, f as u64)
        },
        _ => Fix::Nothing,
    }
}

proof fn lemma_unaligned(o: Out, n: nat, v: nat, fin: Out)
    requires
        settled(fin),
        o.ok(),
        o.put(n, v).grows_to(fin),
        fits(v, n),
        n == 2 || n == 4,
    ensures
        n == 2 ==> decode::unaligned_u16(src(fin), here(o)) == (v as u16, here(o.put(n, v))),
        n == 4 ==> decode::unaligned_u32(src(fin), here(o)) == (v as u32, here(o.put(n, v))),
{
    readback::back_put(o, n, v, fin);
    reveal_with_fuel(un_le, 5);
}

proof fn lemma_try_flags(has_catch: bool, has_finally: bool, var: Option<CatchVar>)
    ensures
        (encode::try_flags(has_catch, has_finally, var) & 1 != 0) == has_catch,
        (encode::try_flags(has_catch, has_finally, var) & 2 != 0) == has_finally,
        (encode::try_flags(has_catch, has_finally, var) & 4 != 0) == (var is Some
            && var->0 is Register),
{
    let c: u8 = if has_catch {
        1
    } else {
        0
    };
    let f: u8 = if has_finally {
        2
    } else {
        0
    };
    let r: u8 = if var is Some && var->0 is Register {
        4
    } else {
        0
    };
    assert((c == 0 || c == 1) && (f == 0 || f == 2) && (r == 0 || r == 4) ==> ((c | f | r) & 1
        != 0) == (c == 1) && ((c | f | r) & 2 != 0) == (f == 2) && ((c | f | r) & 4 != 0) == (r
        == 4)) by (bit_vector);
}

/// Constants that were pushed are found by their indices.
proof fn lemma_pool_items(o: Out, op: u8, v: Seq<Value>, fin: Out)
    requires
        settled(fin),
        o.ok(),
        encode::pool_items(o, op, v).grows_to(fin),
        v.len() <= i32::MAX,
    ensures
        o.grows_to(fin),
        encode::pool_items(o, op, v).ok(),
        o.ps() == fin.ps(),
        src(fin).u8(here(o)) == (op, here(o.put(1, op as nat))),
        decode::pool_items(ctx(fin), here(o.put(1, op as nat))) == (
            v,
            here(encode::pool_items(o, op, v)),
        ),
{
    broadcast use readback::group_back, out::group_ext;

    let a0 = o.put(1, op as nat);
    let a1 = a0.align_ptr();
    let a = a1.put_i32(v.len() as i32);
    assert(a.ok());
    let x = ctx(fin);
    let step = decode::item_step(x);
    if v.len() == 0 {
        assert(a.ptr_value(0).grows_to(fin));
        assert(v =~= Seq::<Value>::empty());
        reveal_with_fuel(reps, 2);
    } else {
        let b = a.constants(v);
        let w = encode::counting(o.consts.len(), v.len());
        readback::lemma_ptr_array(b, w, fin);
        readback::back_constants(a, v, fin);
        let off = target(fin, round_up(b.len(), b.ps()));
        let at = |i: int| off + ptrs(fin.ps(), i);
        assert forall|i: int| 0 <= i < v.len() implies #[trigger] step(
            Rd { pos: at(i), err: None },
        ) == (v[i], Rd { pos: at(i + 1), err: None }) by {
            readback::lemma_listed(fin, off, w, i);
            assert(fin.consts[o.consts.len() + i] == v[i]);
        }
        readback::lemma_reps(step, at, v, v.len());
        assert(v.take(v.len() as int) =~= v);
        assert(0 <= off <= u64::MAX);
    }
}

/// The fixed part of `Try`.
#[verifier::rlimit(40)]
proof fn lemma_try(o: Out, insn: Instruction, fin: Out)
    requires
        settled(fin),
        o.ok(),
        encode::flat_insn(o, insn).grows_to(fin),
        storable(insn),
        insn is Try,
    ensures
        o.grows_to(fin),
        encode::flat_insn(o, insn).ok(),
        decode::insn(ctx(fin), here(o)) == (
            (
                blank(insn),
                raw_fix(fin, insn, o.len(), encode::flat_insn(o, insn).len()),
            ),
            here(encode::flat_insn(o, insn)),
        ),
{
    broadcast use readback::group_back, out::group_ext;

    reveal(encode::flat_insn);
    reveal(decode::flat_insn);
    reveal(decode::try_payload);
    if let Instruction::Try { has_catch, has_finally, catch_var, .. } = insn {
        lemma_try_flags(has_catch, has_finally, catch_var);
        let flags = encode::try_flags(has_catch, has_finally, catch_var);
        let a0 = o.put(1, opcode::TRY as nat);
        let a1 = a0.align_ptr();
        let a2 = a1.slot(4);
        let a3 = a2.slot(4);
        let a4 = a3.slot(4);
        let a5 = a4.put(1, flags as nat);
        let a6 = a5.put(1, 0);
        let a7 = a6.put(1, 0);
        assert(a7.ok());
        match catch_var {
            Some(CatchVar::Register(r)) => {
                let a8 = a7.put(1, r as nat);
                assert(a8.ptr_value(0).grows_to(fin));
                assert(a8.grows_to(fin));
            },
            Some(CatchVar::Variable(s)) => {
                let a8 = a7.put(1, 0);
                assert(a8.text(s).grows_to(fin));
                assert(a8.grows_to(fin));
            },
            None => {
                let a8 = a7.put(1, 0);
                assert(a8.text(Seq::empty()).grows_to(fin));
                assert(a8.grows_to(fin));
            },
        }
        assert(a7.grows_to(fin));
        assert(a4.grows_to(fin));
        assert(a1.grows_to(fin));
        assert(o.grows_to(fin));
    }
}

/// The instructions that wait for a distance.
proof fn lemma_jumps(o: Out, insn: Instruction, fin: Out)
    requires
        settled(fin),
        o.ok(),
        encode::flat_insn(o, insn).grows_to(fin),
        insn is With || insn is BranchAlways || insn is BranchIfTrue || insn is BranchIfFalse,
    ensures
        o.grows_to(fin),
        encode::flat_insn(o, insn).ok(),
        decode::insn(ctx(fin), here(o)) == (
            (
                blank(insn),
                raw_fix(fin, insn, o.len(), encode::flat_insn(o, insn).len()),
            ),
            here(encode::flat_insn(o, insn)),
        ),
{
    broadcast use readback::group_back, out::group_ext;

    reveal(encode::flat_insn);
    reveal(decode::flat_insn);
    let op = match insn {
        Instruction::With { .. } => opcode::WITH,
        Instruction::BranchAlways { .. } => opcode::BRANCH_ALWAYS,
        Instruction::BranchIfTrue { .. } => opcode::BRANCH_IF_TRUE,
        _ => opcode::EA_BRANCH_IF_FALSE,
    };
    let a0 = o.put(1, op as nat);
    let a1 = a0.align_ptr();
    assert(a1.ok());
    if insn is With {
        let a2 = a1.align_ptr();
        assert(a2.slot(o.ps()).grows_to(fin));
        layout::lemma_round_up(a0.len(), o.ps());
        assert(a2.len() == a1.len());
    } else {
        assert(a1.slot(4).grows_to(fin));
    }
    assert(a1.grows_to(fin));
    assert(a0.grows_to(fin));
}

/// The other instructions without a body.
#[verifier::rlimit(60)]
proof fn lemma_plain(o: Out, insn: Instruction, fin: Out)
    requires
        settled(fin),
        o.ok(),
        encode::flat_insn(o, insn).grows_to(fin),
        storable(insn),
        !(insn is DefineFunction || insn is DefineFunction2),
        !(insn is Try),
        !(insn is With || insn is BranchAlways || insn is BranchIfTrue || insn is BranchIfFalse),
    ensures
        o.grows_to(fin),
        encode::flat_insn(o, insn).ok(),
        decode::insn(ctx(fin), here(o)) == (
            (insn, Fix::Nothing),
            here(encode::flat_insn(o, insn)),
        ),
{
    broadcast use readback::group_back, out::group_ext;

    reveal(encode::flat_insn);
    reveal(decode::flat_insn);
    match insn {
        Instruction::Push(v) => {
            lemma_pool_items(o, opcode::PUSH, v, fin);
        },
        Instruction::DefineDictionary(v) => {
            lemma_pool_items(o, opcode::DEFINE_DICTIONARY, v, fin);
        },
        Instruction::TraceStart(v) => {
            lemma_unaligned(o.put(1, opcode::EA_TRACE_START as nat), 4, v as nat, fin);
        },
        Instruction::PushFloat(v) => {
            lemma_unaligned(o.put(1, 0xB4), 4, v as nat, fin);
        },
        Instruction::PushWord(v) => {
            lemma_unaligned(o.put(1, 0xB6), 2, v as nat, fin);
        },
        Instruction::PushDWord(v) => {
            lemma_unaligned(o.put(1, 0xB7), 4, v as nat, fin);
        },
        Instruction::DictRef { kind, index } => {
            let a = o.put(1, kind.code() as nat);
            assert(a.ok());
            if kind == DictRefKind::PushWord {
                lemma_unaligned(a, 2, index as nat, fin);
            } else {
                assert(a.put(1, (index as u8) as nat).grows_to(fin));
            }
        },
        _ => {},
    }
}

/// An instruction without a body.
proof fn lemma_flat(o: Out, insn: Instruction, fin: Out)
    requires
        settled(fin),
        o.ok(),
        encode::flat_insn(o, insn).grows_to(fin),
        storable(insn),
        !(insn is DefineFunction || insn is DefineFunction2),
    ensures
        o.grows_to(fin),
        decode::insn(ctx(fin), here(o)) == (
            (
                blank(insn),
                raw_fix(fin, insn, o.len(), encode::flat_insn(o, insn).len()),
            ),
            here(encode::flat_insn(o, insn)),
        ),
{
    if insn is Try {
        lemma_try(o, insn, fin);
    } else if insn is With || insn is BranchAlways || insn is BranchIfTrue || insn is BranchIfFalse {
        lemma_jumps(o, insn, fin);
    } else {
        lemma_plain(o, insn, fin);
    }
}

/// The size of a body as it stands in the blob, its scratch, and where it ends.
proof fn lemma_body_extent(h: Out, fin: Out)
    requires
        settled(fin),
        h.ok(),
        h.len() % 4 == 0,
        encode::func_pool(h.slot(4)).grows_to(fin),
    ensures
        h.grows_to(fin),
        decode::body_extent(ctx(fin), here(h)) == (
            sat(
                encode::func_pool(h.slot(4)).len(),
                items((un_le(fin.img.bytes, h.len(), 4) as u32) as i32) as int,
            ),
            here(encode::func_pool(h.slot(4))),
        ),
{
    broadcast use readback::group_back, out::group_ext;

    let a = h.slot(4);
    let b = a.align_ptr();
    assert(b.ok());
    layout::lemma_round_up(h.len(), 4);
}

proof fn lemma_function_head(o: Out, name: Seq<char>, params: Seq<Seq<char>>, fin: Out)
    requires
        settled(fin),
        o.ok(),
        params.len() <= i32::MAX,
        encode::func_pool(encode::function_head(o, name, params).slot(4)).grows_to(fin),
    ensures
        o.grows_to(fin),
        src(fin).u8(here(o)) == (
            opcode::DEFINE_FUNCTION,
            here(o.put(1, opcode::DEFINE_FUNCTION as nat)),
        ),
        ({
            let h = encode::function_head(o, name, params);
            let s = encode::func_pool(h.slot(4));
            decode::function_head(ctx(fin), here(o.put(1, opcode::DEFINE_FUNCTION as nat))) == (
                decode::Head {
                    name,
                    params,
                    register_count: 0,
                    flags: 0,
                    end: sat(
                        s.len(),
                        items((un_le(fin.img.bytes, h.len(), 4) as u32) as i32) as int,
                    ),
                },
                here(s),
            )
        }),
{
    broadcast use readback::group_back, out::group_ext;

    reveal(decode::function_head);
    let x = ctx(fin);
    let h = encode::function_head(o, name, params);
    let a0 = o.put(1, opcode::DEFINE_FUNCTION as nat);
    let a1 = a0.align_ptr();
    let a2 = a1.text(name);
    let a3 = a2.align(4);
    let a = a3.put_i32(params.len() as i32);
    assert(a.ok());
    let b = if params.len() == 0 {
        a.ptr_value(0)
    } else {
        a.string_array(params)
    };
    assert(b.ok());
    assert(h == b.align(4));
    lemma_body_extent(h, fin);
    assert(b.grows_to(fin));
    let step = decode::name_step(x);
    if params.len() == 0 {
        assert(params =~= Seq::<Seq<char>>::empty());
        assert(a.grows_to(fin));
        reveal_with_fuel(reps, 2);
    } else {
        readback::lemma_string_array(a, params, fin);
        let off = target(fin, round_up(a.len(), a.ps()));
        let at = |i: int| off + ptrs(fin.ps(), i);
        assert forall|i: int| 0 <= i < params.len() implies #[trigger] step(
            Rd { pos: at(i), err: None },
        ) == (params[i], Rd { pos: at(i + 1), err: None }) by {
            readback::lemma_listed_text(fin, off, params, i);
        }
        readback::lemma_reps(step, at, params, params.len());
        assert(params.take(params.len() as int) =~= params);
        assert(0 <= off <= u64::MAX);
    }
    assert(a3.grows_to(fin));
    assert(a2.grows_to(fin));
    assert(a1.grows_to(fin));
}

proof fn lemma_function2_head(
    o: Out,
    name: Seq<char>,
    params: Seq<(u32, Seq<char>)>,
    register_count: i16,
    flags: i16,
    fin: Out,
)
    requires
        settled(fin),
        o.ok(),
        params.len() <= i32::MAX,
        encode::func_pool(
            encode::function2_head(o, name, params, register_count, flags).slot(4),
        ).grows_to(fin),
    ensures
        o.grows_to(fin),
        src(fin).u8(here(o)) == (
            opcode::DEFINE_FUNCTION2,
            here(o.put(1, opcode::DEFINE_FUNCTION2 as nat)),
        ),
        ({
            let h = encode::function2_head(o, name, params, register_count, flags);
            let s = encode::func_pool(h.slot(4));
            decode::function2_head(ctx(fin), here(o.put(1, opcode::DEFINE_FUNCTION2 as nat))) == (
                decode::Head {
                    name,
                    params,
                    register_count,
                    flags,
                    end: sat(
                        s.len(),
                        items((un_le(fin.img.bytes, h.len(), 4) as u32) as i32) as int,
                    ),
                },
                here(s),
            )
        }),
{
    broadcast use readback::group_back, out::group_ext;

    reveal(decode::function2_head);
    let x = ctx(fin);
    let h = encode::function2_head(o, name, params, register_count, flags);
    let a0 = o.put(1, opcode::DEFINE_FUNCTION2 as nat);
    let a1 = a0.align_ptr();
    let a2 = a1.text(name);
    let a3 = a2.align(4);
    let a4 = a3.put_i32(params.len() as i32);
    let a5 = a4.put_i16(register_count);
    let a = a5.put_i16(flags);
    assert(a.ok());
    let b = if params.len() == 0 {
        a.ptr_value(0)
    } else {
        a.reg_params(params)
    };
    assert(b.ok());
    assert(h == b.align(4));
    lemma_body_extent(h, fin);
    assert(b.grows_to(fin));
    let step = decode::param_step(x);
    if params.len() == 0 {
        assert(params =~= Seq::<(u32, Seq<char>)>::empty());
        assert(a.grows_to(fin));
        reveal_with_fuel(reps, 2);
    } else {
        readback::lemma_reg_params(a, params, fin);
        let off = target(fin, round_up(a.len(), a.ps()));
        let at = |i: int| off + ptrs(fin.ps(), 2 * i);
        assert forall|i: int| 0 <= i < params.len() implies #[trigger] step(
            Rd { pos: at(i), err: None },
        ) == (params[i], Rd { pos: at(i + 1), err: None }) by {
            readback::lemma_listed_param(fin, off, params, i);
        }
        readback::lemma_reps(step, at, params, params.len());
        assert(params.take(params.len() as int) =~= params);
        assert(0 <= off <= u64::MAX);
    }
    assert(a5.grows_to(fin));
    assert(a4.grows_to(fin));
    assert(a3.grows_to(fin));
    assert(a2.grows_to(fin));
    assert(a1.grows_to(fin));
}

/// The distances that the `k`-th instruction was given.
pub open spec fn filled(fin: Out, insn: Instruction, k: int, b: Seq<int>) -> bool {
    let p = round_up(b[k] + 1, fin.ps());
    let base = b[k + 1];
    let s = fin.img.bytes;
    match insn {
        Instruction::BranchAlways { target } => un_le(s, p, 4) == ((b[target as int]
            - base) as i32) as u32,
        Instruction::BranchIfTrue { target } => un_le(s, p, 4) == ((b[target as int]
            - base) as i32) as u32,
        Instruction::BranchIfFalse { target } => un_le(s, p, 4) == ((b[target as int]
            - base) as i32) as u32,
        Instruction::With { end_target } => un_le(s, p, fin.ps()) == ((b[end_target as int]
            - base) as u64) as nat % capacity(fin.ps()),
        Instruction::Try { try_count, catch_count, finally_count, .. } => {
            let t = encode::usat(k + 1, try_count as int);
            let c = encode::usat(t, catch_count as int);
            let f = encode::usat(c, finally_count as int);
            &&& un_le(s, p, 4) == ((b[t] - base) as i32) as u32
            &&& un_le(s, p + 4, 4) == ((b[c] - b[t]) as i32) as u32
            &&& un_le(s, p + 8, 4) == ((b[f] - b[c]) as i32) as u32
        },
        _ => true,
    }
}

proof fn lemma_fill_one(a: Out, insn: Instruction, k: int, b: Seq<int>, fin: Out)
    requires
        settled(fin),
        a.ok(),
        encode::open_slots(a, insn, b[k]),
        encode::fill_one(a, insn, k, b).grows_to(fin),
    ensures
        a.grows_to(fin),
        filled(fin, insn, k, b),
{
    broadcast use readback::group_back, out::group_ext;

    reveal(encode::open_slots);
    let p = round_up(b[k] + 1, a.ps());
    match insn {
        Instruction::With { end_target } => {
            let v = ((b[end_target as int] - b[k + 1]) as u64) as nat;
            out::fill_ok(a, p, a.ps(), v);
            assert(a.fill(p, a.ps(), v).img.grows_to(fin.img)) by {
                reveal(Out::grows_to);
            }
            layout::lemma_fill_read(a.img, p, a.ps(), v, (0, 0), fin.img);
        },
        _ => {},
    }
}

proof fn lemma_fills(o: Out, v: Seq<Instruction>, n: nat, fin: Out)
    requires
        settled(fin),
        o.ok(),
        n <= v.len(),
        encode::fill_all(
            encode::insns_out(o, v, v.len()),
            v,
            encode::bounds(o, v),
            n,
        ).grows_to(fin),
    ensures
        encode::insns_out(o, v, v.len()).grows_to(fin),
        forall|k: int| 0 <= k < n ==> filled(fin, #[trigger] v[k], k, encode::bounds(o, v)),
    decreases n,
{
    if n > 0 {
        let m = (n - 1) as nat;
        let a = encode::insns_out(o, v, v.len());
        let b = encode::bounds(o, v);
        encode::lemma_fill_all(o, v, m);
        let g = encode::fill_all(a, v, b, m);
        out::ext_facts(o, g);
        assert(b[m as int] == encode::insns_out(o, v, m).len());
        assert(encode::open_slots(g, v[m as int], b[m as int]));
        lemma_fill_one(g, v[m as int], m as int, b, fin);
        lemma_fills(o, v, m, fin);
    }
}

/// The `j`-th instruction as it is read, its distances not yet resolved.
pub open spec fn raw_at(fin: Out, v: Seq<Instruction>, b: Seq<int>, j: int) -> Raw {
    Raw { start: b[j] as u64, insn: blank(v[j]), fix: raw_fix(fin, v[j], b[j], b[j + 1]) }
}

/// The instructions from the `k`-th on.
pub open spec fn raws_from(fin: Out, v: Seq<Instruction>, b: Seq<int>, k: int) -> Seq<Raw> {
    Seq::new((v.len() - k) as nat, |i: int| raw_at(fin, v, b, k + i))
}

/// One instruction.
pub proof fn lemma_insn(o: Out, insn: Instruction, fin: Out)
    requires
        settled(fin),
        o.ok(),
        encode::insn_out(o, insn).grows_to(fin),
        encode::insn_out(o, insn).len() - o.len() <= i32::MAX,
        storable(insn),
        encode::insn_err(insn) is None,
    ensures
        o.grows_to(fin),
        decode::insn(ctx(fin), here(o)) == (
            (blank(insn), raw_fix(fin, insn, o.len(), encode::insn_out(o, insn).len())),
            here(encode::insn_out(o, insn)),
        ),
    decreases insn, 0nat, 0nat,
{
    match insn {
        Instruction::DefineFunction { name, params, body } => {
            encode::lemma_insn(o, insn);
            let h = encode::function_head(o, name, params);
            lemma_head_ok(o, insn);
            let s = encode::func_pool(h.slot(4));
            let b = encode::block(s, body, false);
            lemma_sized(h, body, fin);
            lemma_function_head(o, name, params, fin);
            readback::settled_facts(fin);
            let size = (un_le(fin.img.bytes, h.len(), 4) as u32) as i32;
            assert(sat(s.len(), items(size) as int) == b.len());
        },
        Instruction::DefineFunction2 { name, params, register_count, flags, body } => {
            encode::lemma_insn(o, insn);
            let h = encode::function2_head(o, name, params, register_count, flags);
            lemma_head_ok(o, insn);
            let s = encode::func_pool(h.slot(4));
            let b = encode::block(s, body, false);
            lemma_sized(h, body, fin);
            lemma_function2_head(o, name, params, register_count, flags, fin);
            readback::settled_facts(fin);
            let size = (un_le(fin.img.bytes, h.len(), 4) as u32) as i32;
            assert(sat(s.len(), items(size) as int) == b.len());
        },
        _ => {
            lemma_flat(o, insn, fin);
        },
    }
}

proof fn lemma_head_ok(o: Out, insn: Instruction)
    requires
        o.ok(),
    ensures
        match insn {
            Instruction::DefineFunction { name, params, .. } => {
                o.len() < encode::function_head(o, name, params).len() && encode::function_head(
                    o,
                    name,
                    params,
                ).ok()
            },
            Instruction::DefineFunction2 { name, params, register_count, flags, .. } => {
                o.len() < encode::function2_head(o, name, params, register_count, flags).len()
                    && encode::function2_head(o, name, params, register_count, flags).ok()
            },
            _ => true,
        },
{
    broadcast use out::group_ext;

}

/// A body behind its size.
proof fn lemma_sized(h: Out, body: Seq<Instruction>, fin: Out)
    requires
        settled(fin),
        h.ok(),
        encode::sized_body(h, body).grows_to(fin),
        encode::sized_body(h, body).len() - h.len() <= i32::MAX,
        storable_block(body),
        encode::block_err(body) is None,
    ensures
        ({
            let s = encode::func_pool(h.slot(4));
            let b = encode::block(s, body, false);
            &&& s.grows_to(fin)
            &&& h.len() < s.len() <= b.len() <= fin.len()
            &&& encode::sized_body(h, body).len() == b.len()
            &&& (un_le(fin.img.bytes, h.len(), 4) as u32) as i32 == b.len() - s.len()
            &&& decode::block(ctx(fin), here(s), Some(b.len())) == (body, here(b))
        }),
    decreases body, 3nat, 0nat,
{
    let s = encode::func_pool(h.slot(4));
    let b = encode::block(s, body, false);
    encode::lemma_sized_body(h, body);
    out::ext_facts(s, b);
    let v = (((b.len() - s.len()) as i32) as u32) as nat;
    readback::back_fill(b, h.len(), 4, v, fin);
    readback::settled_facts(fin);
    out::grow_facts(b, fin);
    readback::lemma_i32_bits((b.len() - s.len()) as i32);
    lemma_block(s, body, false, fin);
}

/// Where instructions start.
proof fn lemma_bounds(o: Out, v: Seq<Instruction>, fin: Out)
    requires
        o.ok(),
        encode::insns_out(o, v, v.len()).grows_to(fin),
    ensures
        forall|k: int| 0 <= k <= v.len() ==> 0 <= #[trigger] encode::bounds(o, v)[k] <= fin.len(),
        forall|j: int, k: int|
            0 <= j < k <= v.len() ==> encode::bounds(o, v)[j] < encode::bounds(o, v)[k],
        forall|k: int|
            0 <= k <= v.len() ==> #[trigger] encode::insns_out(o, v, k as nat).grows_to(fin)
                && encode::insns_out(o, v, k as nat).ok(),
{
    encode::lemma_insns(o, v, v.len());
    let a = encode::insns_out(o, v, v.len());
    let b = encode::bounds(o, v);
    assert forall|k: int| 0 <= k <= v.len() implies #[trigger] encode::insns_out(
        o,
        v,
        k as nat,
    ).grows_to(fin) && encode::insns_out(o, v, k as nat).ok() by {
        readback::lemma_back(encode::insns_out(o, v, k as nat), a, fin);
    }
    assert forall|k: int| 0 <= k <= v.len() implies 0 <= #[trigger] b[k] <= fin.len() by {
        assert(encode::insns_out(o, v, k as nat).grows_to(fin));
        out::grow_facts(encode::insns_out(o, v, k as nat), fin);
    }
    assert forall|j: int, k: int| 0 <= j < k <= v.len() implies b[j] < b[k] by {
        assert(encode::insns_out(o, v, j as nat).len() < encode::insns_out(o, v, k as nat).len());
    }
}

/// The instructions from the `k`-th on.
proof fn lemma_raws(o: Out, v: Seq<Instruction>, k: nat, end: Option<int>, fin: Out)
    requires
        settled(fin),
        o.ok(),
        encode::insns_out(o, v, v.len()).grows_to(fin),
        encode::insns_out(o, v, v.len()).len() - o.len() <= i32::MAX,
        storable_block(v),
        encode::bodies_err(v, v.len()) is None,
        k <= v.len(),
        end matches Some(e) ==> e == encode::bounds(o, v)[v.len() as int],
        end is None ==> k < v.len() && storable_stream(v, fin.ps()),
    ensures
        decode::raws(ctx(fin), Rd { pos: encode::bounds(o, v)[k as int], err: None }, end) == (
            raws_from(fin, v, encode::bounds(o, v), k as int),
            Rd { pos: encode::bounds(o, v)[v.len() as int], err: None },
        ),
    decreases v, 1nat, v.len() - k,
{
    let b = encode::bounds(o, v);
    let n = v.len() as int;
    lemma_bounds(o, v, fin);
    if k == v.len() {
        assert(raws_from(fin, v, b, k as int) =~= Seq::<Raw>::empty());
    } else {
        let a = encode::insns_out(o, v, k);
        let c = encode::insns_out(o, v, k + 1);
        assert(encode::insns_out(o, v, (k as int) as nat).grows_to(fin));
        assert(a.ok());
        assert(encode::insns_out(o, v, (k + 1) as nat).grows_to(fin));
        assert(encode::insn_err(v[k as int]) is None) by {
            lemma_bodies(v, k as int);
        }
        assert(storable(v[k as int]));
        assert(b[k as int] == a.len() && b[k as int + 1] == c.len());
        assert(b[0] == o.len() && b[n] == encode::insns_out(o, v, v.len()).len());
        assert(b[0] <= b[k as int] && b[k as int + 1] <= b[n]) by {
            if 0 < k {
                assert(b[0] < b[k as int]);
            }
            if k + 1 < n {
                assert(b[k as int + 1] < b[n]);
            }
        }
        lemma_insn(a, v[k as int], fin);
        assert(b[k as int] == a.len());
        assert(b[k as int + 1] == c.len());
        let r = raws_from(fin, v, b, k as int);
        assert(b[k as int] < b[k as int + 1]);
        if end is None && k == v.len() - 1 {
            assert(r =~= seq![raw_at(fin, v, b, k as int)]);
        } else {
            lemma_raws(o, v, k + 1, end, fin);
            assert(r =~= seq![raw_at(fin, v, b, k as int)] + raws_from(fin, v, b, k as int + 1));
            assert(end is None ==> !(v[k as int] is End));
            assert(b[k as int] < b[n]);
        }
    }
}

proof fn lemma_bodies(v: Seq<Instruction>, k: int)
    requires
        encode::bodies_err(v, v.len()) is None,
        0 <= k < v.len(),
    ensures
        encode::insn_err(v[k]) is None,
{
    if encode::bodies_err(v, (k + 1) as nat) is Some {
        encode::lemma_bodies_sticky(v, (k + 1) as nat, v.len());
    }
}

proof fn lemma_targets(v: Seq<Instruction>, k: int)
    requires
        encode::targets_err(v, v.len()) is None,
        0 <= k < v.len(),
    ensures
        encode::target_err(v[k], k, v.len()) is None,
{
    if encode::targets_err(v, (k + 1) as nat) is Some {
        encode::lemma_targets_sticky(v, (k + 1) as nat, v.len());
    }
}

proof fn lemma_delta(end: int, to: int, got: nat)
    requires
        0 <= end <= u64::MAX,
        0 <= to <= u64::MAX,
        -i32::MAX <= to - end <= i32::MAX,
        got == ((to - end) as i32) as u32,
    ensures
        (end + (got as u32) as i32) as u64 == to,
{
    readback::lemma_i32_bits((to - end) as i32);
}

proof fn lemma_far_bits(d: i64)
    ensures
        (d as u64) as i64 == d,
        i32::MIN <= d <= i32::MAX ==> (d as u64) % 0x1_0000_0000 == (d as i32) as u32,
{
    assert((d as u64) as i64 == d) by (bit_vector);
    assert(-0x8000_0000 <= d <= 0x7FFF_FFFF ==> (d as u64) % 0x1_0000_0000 == ((
    d as i32) as u32) as u64) by (bit_vector);
}

proof fn lemma_far_delta(end: int, to: int, got: nat, ps: nat)
    requires
        0 <= end <= u64::MAX,
        0 <= to <= u64::MAX,
        -i32::MAX <= to - end <= i32::MAX,
        ps == 4 || ps == 8,
        got == ((to - end) as u64) as nat % capacity(ps),
    ensures
        ps == 4 ==> (end + (got as u32) as i32) as u64 == to,
        ps == 8 ==> (end + (got as u64) as i64) as u64 == to,
{
    let d = (to - end) as i64;
    assert(d == to - end);
    lemma_far_bits(d);
    bytes::lemma_capacity();
    assert((to - end) as u64 == d as u64);
    readback::lemma_i32_bits((to - end) as i32);
    let w = d as u64;
    if ps == 8 {
        assert(got == w);
    } else {
        assert(got == w as nat % 0x1_0000_0000);
        assert(d as i32 == (to - end) as i32);
    }
}

/// Distances become indices again.
proof fn lemma_resolved(v: Seq<Instruction>, b: Seq<int>, w: Seq<u64>, j: int, fin: Out)
    requires
        settled(fin),
        b.len() == v.len() + 1,
        w.len() == b.len(),
        forall|k: int| 0 <= k <= v.len() ==> w[k] == #[trigger] b[k],
        forall|k: int| 0 <= k <= v.len() ==> 0 <= #[trigger] b[k] <= u64::MAX,
        b[v.len() as int] - b[0] <= i32::MAX,
        forall|i: int, k: int| 0 <= i < k <= v.len() ==> b[i] < b[k],
        0 <= j < v.len() < usize::MAX,
        filled(fin, v[j], j, b),
        encode::target_err(v[j], j, v.len()) is None,
    ensures
        decode::resolve_one(raw_at(fin, v, b, j), w, j) == v[j],
        decode::off_boundary(w, raw_at(fin, v, b, j).fix) is None,
{
    assert forall|i: int, k: int| 0 <= i < k < w.len() implies w[i] < w[k] by {
        assert(b[i] < b[k]);
    }
    readback::settled_facts(fin);
    assert forall|k: int| 0 <= k <= v.len() implies b[0] <= #[trigger] b[k] <= b[v.len() as int] by {
        if 0 < k {
            assert(b[0] < b[k]);
        }
        if k < v.len() {
            assert(b[k] < b[v.len() as int]);
        }
    }
    let end = b[j + 1];
    let p = round_up(b[j] + 1, fin.ps());
    let s = fin.img.bytes;
    match v[j] {
        Instruction::BranchAlways { target } => {
            lemma_delta(end, b[target as int], un_le(s, p, 4));
            decode::lemma_index_of(w, w[target as int], target as int);
        },
        Instruction::BranchIfTrue { target } => {
            lemma_delta(end, b[target as int], un_le(s, p, 4));
            decode::lemma_index_of(w, w[target as int], target as int);
        },
        Instruction::BranchIfFalse { target } => {
            lemma_delta(end, b[target as int], un_le(s, p, 4));
            decode::lemma_index_of(w, w[target as int], target as int);
        },
        Instruction::With { end_target } => {
            lemma_far_delta(end, b[end_target as int], un_le(s, p, fin.ps()), fin.ps());
            decode::lemma_index_of(w, w[end_target as int], end_target as int);
        },
        Instruction::Try { try_count, catch_count, finally_count, .. } => {
            let t = j + 1 + try_count;
            let c = t + catch_count;
            let f = c + finally_count;
            assert(t <= v.len() && c <= v.len() && f <= v.len());
            assert(b[j + 1] <= b[t] <= b[c] <= b[f]);
            lemma_size(b[t] - end);
            lemma_size(b[c] - b[t]);
            lemma_size(b[f] - b[c]);
            decode::lemma_index_of(w, w[t], t);
            decode::lemma_index_of(w, w[c], c);
            decode::lemma_index_of(w, w[f], f);
        },
        _ => {},
    }
}

proof fn lemma_size(d: int)
    requires
        0 <= d <= i32::MAX,
    ensures
        (d as i32) as u32 == d,
{
}

proof fn lemma_resolve(
    v: Seq<Instruction>,
    b: Seq<int>,
    w: Seq<u64>,
    stream: int,
    d: Rd,
    n: nat,
    fin: Out,
)
    requires
        settled(fin),
        b.len() == v.len() + 1,
        w.len() == b.len(),
        forall|k: int| 0 <= k <= v.len() ==> w[k] == #[trigger] b[k],
        forall|k: int| 0 <= k <= v.len() ==> 0 <= #[trigger] b[k] <= u64::MAX,
        b[v.len() as int] - b[0] <= i32::MAX,
        forall|i: int, k: int| 0 <= i < k <= v.len() ==> b[i] < b[k],
        n <= v.len() < usize::MAX,
        forall|k: int| 0 <= k < v.len() ==> filled(fin, #[trigger] v[k], k, b),
        encode::targets_err(v, v.len()) is None,
    ensures
        decode::resolve(raws_from(fin, v, b, 0), w, stream, d, n) == (v.take(n as int), d),
    decreases n,
{
    if n == 0 {
        assert(v.take(0) =~= Seq::<Instruction>::empty());
    } else {
        let m = n - 1;
        lemma_resolve(v, b, w, stream, d, m as nat, fin);
        lemma_targets(v, m);
        lemma_resolved(v, b, w, m, fin);
        assert(raws_from(fin, v, b, 0)[m] == raw_at(fin, v, b, m));
        assert(v.take(n as int) =~= v.take(m).push(v[m]));
    }
}

/// A block of instructions.
pub proof fn lemma_block(o: Out, v: Seq<Instruction>, is_stream: bool, fin: Out)
    requires
        settled(fin),
        o.ok(),
        encode::block(o, v, is_stream).grows_to(fin),
        encode::block(o, v, is_stream).len() - o.len() <= i32::MAX,
        storable_block(v),
        is_stream ==> storable_stream(v, fin.ps()),
        encode::block_err(v) is None,
    ensures
        o.grows_to(fin),
        decode::block(
            ctx(fin),
            here(o),
            if is_stream {
                None
            } else {
                Some(encode::block(o, v, is_stream).len())
            },
        ) == (v, here(encode::block(o, v, is_stream))),
    decreases v, 2nat, 0nat,
{
    let b = encode::bounds(o, v);
    let n = v.len() as int;
    let end = if is_stream {
        None
    } else {
        Some(encode::block(o, v, is_stream).len())
    };
    encode::lemma_fill_all(o, v, v.len());
    lemma_fills(o, v, v.len(), fin);
    lemma_bounds(o, v, fin);
    assert(b[n] == encode::block(o, v, is_stream).len());
    assert(b[n] == encode::insns_out(o, v, v.len()).len());
    assert(encode::insns_out(o, v, (0int) as nat).grows_to(fin));
    assert(b[0] == o.len());
    readback::settled_facts(fin);
    lemma_raws(o, v, 0, end, fin);
    let r = raws_from(fin, v, b, 0);
    let w = decode::boundaries(r, b[n]);
    assert forall|k: int| 0 <= k <= v.len() implies w[k] == #[trigger] b[k] by {
        if k < n {
            assert(r[k] == raw_at(fin, v, b, k));
        }
    }
    lemma_resolve(v, b, w, o.len(), Rd { pos: b[n], err: None }, v.len(), fin);
    assert(v.take(n) =~= v);
}

/// A stream is read back from where it was put.
pub proof fn lemma_stream(o: Out, v: Seq<Instruction>, fin: Out, c: Rd)
    requires
        settled(fin),
        o.ok(),
        0 < o.len(),
        encode::stream(o, v).grows_to(fin),
        storable_stream(v, fin.ps()),
        encode::block_err(v) is None,
        c.err is None,
    ensures
        o.grows_to(fin),
        encode::stream(o, v).ok(),
        decode::stream(ctx(fin), c, o.len() as u64) == (v, c),
{
    encode::lemma_block(o, v, true);
    out::ext_facts(o, encode::stream(o, v));
    out::grow_facts(encode::stream(o, v), fin);
    lemma_block(o, v, true, fin);
    out::grow_facts(o, fin);
    readback::settled_facts(fin);
}

} // verus!
