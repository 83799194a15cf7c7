//! How an action stream is laid out.
use super::actions::DictRefKind;
use super::bytes::round_up;
use super::layout;
use super::model::{self, or_else, CatchVar, Instruction, Value};
use super::opcode;
use super::out::{self, Out};
use super::types::{FUNC_POOL_ARRAY_MAGIC, FUNC_POOL_ITEMS_MAGIC};
use vstd::prelude::*;

verus! {

/// The sum, or the largest index where the sum is larger.
pub open spec fn usat(a: int, b: int) -> int {
    if a + b > usize::MAX {
        usize::MAX as int
    } else {
        a + b
    }
}

/// `n` consecutive numbers from `from` on.
pub open spec fn counting(from: nat, n: nat) -> Seq<nat> {
    Seq::new(n, |i: int| (from + i) as nat)
}

/// `{ int nItems; ptr apItems }`: the items join the constants, and the slots
/// hold their indices.
pub open spec fn pool_items(o: Out, op: u8, v: Seq<Value>) -> Out {
    let a = o.put(1, op as nat).align_ptr().put_i32(v.len() as i32);
    if v.len() == 0 {
        a.ptr_value(0)
    } else {
        a.constants(v).ptr_array(counting(o.consts.len(), v.len()))
    }
}

/// The dead scratch of a function.
pub open spec fn func_pool(o: Out) -> Out {
    o.align_ptr().put_i32(FUNC_POOL_ITEMS_MAGIC as i32).ptr_value(FUNC_POOL_ARRAY_MAGIC as nat)
}

/// What precedes the size of a DefineFunction body.
pub open spec fn function_head(o: Out, name: Seq<char>, params: Seq<Seq<char>>) -> Out {
    let a = o.put(1, opcode::DEFINE_FUNCTION as nat).align_ptr().text(name).align(4).put_i32(
        params.len() as i32,
    );
    let b = if params.len() == 0 {
        a.ptr_value(0)
    } else {
        a.string_array(params)
    };
    b.align(4)
}

/// What precedes the size of a DefineFunction2 body.
pub open spec fn function2_head(
    o: Out,
    name: Seq<char>,
    params: Seq<(u32, Seq<char>)>,
    register_count: i16,
    flags: i16,
) -> Out {
    let a = o.put(1, opcode::DEFINE_FUNCTION2 as nat).align_ptr().text(name).align(4).put_i32(
        params.len() as i32,
    ).put_i16(register_count).put_i16(flags);
    let b = if params.len() == 0 {
        a.ptr_value(0)
    } else {
        a.reg_params(params)
    };
    b.align(4)
}

/// The flag byte of `Try`.
pub open spec fn try_flags(has_catch: bool, has_finally: bool, var: Option<CatchVar>) -> u8 {
    let c: u8 = if has_catch {
        1
    } else {
        0
    };
    let f: u8 = if has_finally {
        2
    } else {
        0
    };
    let r: u8 = if var is Some && var->0 is Register {
        4
    } else {
        0
    };
    c | f | r
}

/// `Try`, its three sizes not yet filled in.
pub open spec fn try_struct(
    o: Out,
    has_catch: bool,
    has_finally: bool,
    var: Option<CatchVar>,
) -> Out {
    let a = o.put(1, opcode::TRY as nat).align_ptr().slot(4).slot(4).slot(4).put(
        1,
        try_flags(has_catch, has_finally, var) as nat,
    ).put(1, 0).put(1, 0);
    match var {
        Some(CatchVar::Register(r)) => a.put(1, r as nat).ptr_value(0),
        Some(CatchVar::Variable(name)) => a.put(1, 0).text(name),
        None => a.put(1, 0).text(Seq::empty()),
    }
}

/// An instruction without a body, its distances not yet filled in.
#[verifier::opaque]
pub open spec fn flat_insn(o: Out, insn: Instruction) -> Out {
    match insn {
        Instruction::End => o.put(1, opcode::END as nat),
        Instruction::Simple(op) => o.put(1, op as nat),
        Instruction::GotoFrame(frame) => o.put(1, opcode::GOTO_FRAME as nat).align_ptr().put_i32(
            frame,
        ),
        Instruction::GetUrl { url, target } => o.put(1, opcode::GET_URL as nat).align_ptr().text(
            url,
        ).text(target),
        Instruction::StoreRegister(r) => o.put(
            1,
            opcode::STORE_REGISTER as nat,
        ).align_ptr().put_i32(r),
        Instruction::SetTarget(s) => o.put(1, opcode::SET_TARGET as nat).align_ptr().text(s),
        Instruction::GotoLabel(s) => o.put(1, opcode::GOTO_LABEL as nat).align_ptr().text(s),
        Instruction::GotoFrame2 { play } => o.put(
            1,
            opcode::GOTO_FRAME2 as nat,
        ).align_ptr().put_i32(
            if play {
                1
            } else {
                0
            },
        ),
        Instruction::Push(v) => pool_items(o, opcode::PUSH, v),
        Instruction::DefineDictionary(v) => pool_items(o, opcode::DEFINE_DICTIONARY, v),
        Instruction::Try { has_catch, has_finally, catch_var, .. } => try_struct(
            o,
            has_catch,
            has_finally,
            catch_var,
        ),
        Instruction::With { .. } => o.put(1, opcode::WITH as nat).align_ptr().ptr_slot(),
        Instruction::BranchAlways { .. } => o.put(
            1,
            opcode::BRANCH_ALWAYS as nat,
        ).align_ptr().slot(4),
        Instruction::BranchIfTrue { .. } => o.put(
            1,
            opcode::BRANCH_IF_TRUE as nat,
        ).align_ptr().slot(4),
        Instruction::BranchIfFalse { .. } => o.put(
            1,
            opcode::EA_BRANCH_IF_FALSE as nat,
        ).align_ptr().slot(4),
        Instruction::TraceStart(v) => o.put(1, opcode::EA_TRACE_START as nat).put(4, v as nat),
        Instruction::PushString { kind, value } => o.put(1, kind.code() as nat).align_ptr().text(
            value,
        ),
        Instruction::DictRef { kind, index } => if kind == DictRefKind::PushWord {
            o.put(1, kind.code() as nat).put(2, index as nat)
        } else {
            o.put(1, kind.code() as nat).put(1, (index as u8) as nat)
        },
        Instruction::PushFloat(v) => o.put(1, 0xB4).put(4, v as nat),
        Instruction::PushByte(v) => o.put(1, 0xB5).put(1, v as nat),
        Instruction::PushWord(v) => o.put(1, 0xB6).put(2, v as nat),
        Instruction::PushDWord(v) => o.put(1, 0xB7).put(4, v as nat),
        Instruction::PushRegister(v) => o.put(1, opcode::EA_PUSH_REGISTER as nat).put(1, v as nat),
        _ => o,
    }
}

/// The size of a body, its scratch, and the body.
pub open spec fn sized_body(h: Out, body: Seq<Instruction>) -> Out
    decreases body, 3 + body.len(), 0int,
{
    let s = func_pool(h.slot(4));
    let b = block(s, body, false);
    b.fill(h.len(), 4, (((b.len() - s.len()) as i32) as u32) as nat)
}

/// One instruction, its distances not yet filled in.
pub open spec fn insn_out(o: Out, insn: Instruction) -> Out
    decreases insn, 0int, 0int,
{
    match insn {
        Instruction::DefineFunction { name, params, body } => sized_body(
            function_head(o, name, params),
            body,
        ),
        Instruction::DefineFunction2 { name, params, register_count, flags, body } => sized_body(
            function2_head(o, name, params, register_count, flags),
            body,
        ),
        _ => flat_insn(o, insn),
    }
}

/// The first `n` instructions, their distances not yet filled in.
pub open spec fn insns_out(o: Out, v: Seq<Instruction>, n: nat) -> Out
    decreases v, n, 0int,
{
    if n == 0 || n > v.len() {
        o
    } else {
        insn_out(insns_out(o, v, (n - 1) as nat), v[n - 1])
    }
}

/// Where the instructions start, and where the last one ends.
pub open spec fn bounds(o: Out, v: Seq<Instruction>) -> Seq<int>
    decreases v, v.len() + 1, 0int,
{
    Seq::new(
        (v.len() + 1) as nat,
        |k: int|
            if 0 <= k <= v.len() {
                insns_out(o, v, k as nat).len()
            } else {
                0
            },
    )
}

/// Distances and sizes that the `k`-th instruction waits for.
pub open spec fn fill_one(a: Out, insn: Instruction, k: int, b: Seq<int>) -> Out {
    let p = round_up(b[k] + 1, a.ps());
    let base = b[k + 1];
    match insn {
        Instruction::BranchAlways { target } => a.fill(
            p,
            4,
            (((b[target as int] - base) as i32) as u32) as nat,
        ),
        Instruction::BranchIfTrue { target } => a.fill(
            p,
            4,
            (((b[target as int] - base) as i32) as u32) as nat,
        ),
        Instruction::BranchIfFalse { target } => a.fill(
            p,
            4,
            (((b[target as int] - base) as i32) as u32) as nat,
        ),
        Instruction::With { end_target } => a.fill(
            p,
            a.ps(),
            ((b[end_target as int] - base) as u64) as nat,
        ),
        Instruction::Try { try_count, catch_count, finally_count, .. } => {
            let t = usat(k + 1, try_count as int);
            let c = usat(t, catch_count as int);
            let f = usat(c, finally_count as int);
            a.fill(p, 4, (((b[t] - base) as i32) as u32) as nat).fill(
                p + 4,
                4,
                (((b[c] - b[t]) as i32) as u32) as nat,
            ).fill(p + 8, 4, (((b[f] - b[c]) as i32) as u32) as nat)
        },
        _ => a,
    }
}

/// Distances and sizes that the first `n` instructions wait for.
pub open spec fn fill_all(a: Out, v: Seq<Instruction>, b: Seq<int>, n: nat) -> Out
    decreases n,
{
    if n == 0 {
        a
    } else {
        fill_one(fill_all(a, v, b, (n - 1) as nat), v[n - 1], n - 1, b)
    }
}

/// A block of instructions. An empty stream is a lone `End`.
pub open spec fn block(o: Out, v: Seq<Instruction>, end_if_empty: bool) -> Out
    decreases v, v.len() + 2, 0int,
{
    if v.len() == 0 && end_if_empty {
        o.put(1, opcode::END as nat)
    } else {
        fill_all(insns_out(o, v, v.len()), v, bounds(o, v), v.len())
    }
}

/// A stream. It starts where the blob ended.
pub open spec fn stream(o: Out, v: Seq<Instruction>) -> Out {
    block(o, v, true)
}

/// The index of an instruction that a stream of `len` instructions lacks.
pub open spec fn index_err(index: int, len: nat) -> Option<model::Error> {
    if index <= len {
        None
    } else {
        Some(model::Error::BranchIndexOutOfRange { index: index as usize, count: len as usize })
    }
}

/// Whether the targets of the `k`-th of `len` instructions exist.
pub open spec fn target_err(insn: Instruction, k: int, len: nat) -> Option<model::Error> {
    match insn {
        Instruction::BranchAlways { target } => index_err(target as int, len),
        Instruction::BranchIfTrue { target } => index_err(target as int, len),
        Instruction::BranchIfFalse { target } => index_err(target as int, len),
        Instruction::With { end_target } => index_err(end_target as int, len),
        Instruction::Try { try_count, catch_count, finally_count, .. } => {
            let t = usat(k + 1, try_count as int);
            let c = usat(t, catch_count as int);
            let f = usat(c, finally_count as int);
            or_else(index_err(t, len), or_else(index_err(c, len), index_err(f, len)))
        },
        _ => None,
    }
}

/// The first bad target among the first `n` instructions.
pub open spec fn targets_err(v: Seq<Instruction>, n: nat) -> Option<model::Error>
    decreases n,
{
    if n == 0 {
        None
    } else {
        or_else(targets_err(v, (n - 1) as nat), target_err(v[n - 1], n - 1, v.len()))
    }
}

/// What is wrong inside an instruction's body.
pub open spec fn insn_err(insn: Instruction) -> Option<model::Error>
    decreases insn, 0int,
{
    match insn {
        Instruction::DefineFunction { body, .. } => block_err(body),
        Instruction::DefineFunction2 { body, .. } => block_err(body),
        _ => None,
    }
}

/// What is wrong inside the bodies of the first `n` instructions.
pub open spec fn bodies_err(v: Seq<Instruction>, n: nat) -> Option<model::Error>
    decreases v, n,
{
    if n == 0 || n > v.len() {
        None
    } else {
        or_else(bodies_err(v, (n - 1) as nat), insn_err(v[n - 1]))
    }
}

/// Why a block cannot be written: the first bad target, inner blocks first.
pub open spec fn block_err(v: Seq<Instruction>) -> Option<model::Error>
    decreases v, v.len() + 1,
{
    or_else(bodies_err(v, v.len()), targets_err(v, v.len()))
}

/// Whether the slots that an instruction starting at `start` waits to be filled
/// are empty.
#[verifier::opaque]
pub open spec fn open_slots(o: Out, insn: Instruction, start: int) -> bool {
    let p = round_up(start + 1, o.ps());
    match insn {
        Instruction::BranchAlways { .. } => o.pending(p, 4),
        Instruction::BranchIfTrue { .. } => o.pending(p, 4),
        Instruction::BranchIfFalse { .. } => o.pending(p, 4),
        Instruction::With { .. } => o.pending(p, o.ps()),
        Instruction::Try { .. } => o.pending(p, 4) && o.pending(p + 4, 4) && o.pending(p + 8, 4),
        _ => true,
    }
}

pub proof fn lemma_open_kept(a: Out, b: Out, insn: Instruction, start: int)
    requires
        a.extends_to(b),
        open_slots(a, insn, start),
    ensures
        open_slots(b, insn, start),
{
    broadcast use out::group_ext;

    reveal(open_slots);
}

pub proof fn lemma_flat(o: Out, insn: Instruction)
    requires
        o.ok(),
        !(insn is DefineFunction),
        !(insn is DefineFunction2),
    ensures
        o.extends_to(flat_insn(o, insn)),
        o.len() < flat_insn(o, insn).len(),
        open_slots(flat_insn(o, insn), insn, o.len()),
{
    broadcast use out::group_ext;

    reveal(flat_insn);
    reveal(open_slots);
    let a = o.put(1, opcode::WITH as nat).align_ptr();
    layout::lemma_round_up(o.len() + 1, o.ps());
}

/// The slots of an instruction lie within it.
proof fn lemma_open_bounds(o: Out, insn: Instruction, start: int)
    requires
        o.ok(),
        open_slots(o, insn, start),
    ensures
        ({
            let p = round_up(start + 1, o.ps());
            match insn {
                Instruction::BranchAlways { .. } => p + 4 <= o.len(),
                Instruction::BranchIfTrue { .. } => p + 4 <= o.len(),
                Instruction::BranchIfFalse { .. } => p + 4 <= o.len(),
                Instruction::With { .. } => p + o.ps() <= o.len(),
                Instruction::Try { .. } => p + 12 <= o.len(),
                _ => true,
            }
        }),
{
    broadcast use out::group_ext;

    reveal(open_slots);
    out::ext_refl(o);
}

pub proof fn lemma_insn(o: Out, insn: Instruction)
    requires
        o.ok(),
    ensures
        o.extends_to(insn_out(o, insn)),
        o.len() < insn_out(o, insn).len(),
        open_slots(insn_out(o, insn), insn, o.len()),
    decreases insn, 0int, 0int,
{
    broadcast use out::group_ext;

    match insn {
        Instruction::DefineFunction { name, params, body } => {
            let h = function_head(o, name, params);
            lemma_sized_body(h, body);
            assert(o.extends_to(h));
            assert(o.len() < h.len());
            reveal(open_slots);
        },
        Instruction::DefineFunction2 { name, params, register_count, flags, body } => {
            let h = function2_head(o, name, params, register_count, flags);
            lemma_sized_body(h, body);
            assert(o.extends_to(h));
            assert(o.len() < h.len());
            reveal(open_slots);
        },
        _ => {
            lemma_flat(o, insn);
        },
    }
}

pub proof fn lemma_sized_body(h: Out, body: Seq<Instruction>)
    requires
        h.ok(),
    ensures
        h.extends_to(sized_body(h, body)),
        h.slot(4).extends_to(func_pool(h.slot(4))),
        func_pool(h.slot(4)).extends_to(block(func_pool(h.slot(4)), body, false)),
        block(func_pool(h.slot(4)), body, false).pending(h.len(), 4),
        h.len() + 4 <= func_pool(h.slot(4)).len(),
    decreases body, 3 + body.len(), 0int,
{
    broadcast use out::group_ext;

    let s = func_pool(h.slot(4));
    assert(h.slot(4).extends_to(s));
    lemma_block(s, body, false);
    let b = block(s, body, false);
    assert(h.extends_to(b));
    assert(b.pending(h.len(), 4));
}

pub proof fn lemma_insns(o: Out, v: Seq<Instruction>, n: nat)
    requires
        o.ok(),
        n <= v.len(),
    ensures
        o.extends_to(insns_out(o, v, n)),
        forall|k: int|
            0 <= k <= n ==> #[trigger] insns_out(o, v, k as nat).extends_to(insns_out(o, v, n)),
        forall|j: int, k: int|
            0 <= j < k <= n ==> #[trigger] insns_out(o, v, j as nat).len() < #[trigger] insns_out(
                o,
                v,
                k as nat,
            ).len(),
        forall|k: int|
            #![trigger v[k]]
            0 <= k < n ==> open_slots(
                insns_out(o, v, (k + 1) as nat),
                v[k],
                insns_out(o, v, k as nat).len(),
            ),
    decreases v, n, 0int,
{
    if n == 0 {
        out::ext_refl(o);
    } else {
        let m = (n - 1) as nat;
        lemma_insns(o, v, m);
        let a = insns_out(o, v, m);
        out::ext_facts(o, a);
        lemma_insn(a, v[n - 1]);
        let b = insns_out(o, v, n);
        out::ext_trans(o, a, b);
        out::ext_facts(o, b);
        out::ext_refl(b);
        assert forall|k: int| 0 <= k <= n implies #[trigger] insns_out(o, v, k as nat).extends_to(
            b,
        ) by {
            if k < n {
                out::ext_trans(insns_out(o, v, k as nat), a, b);
            }
        }
        assert forall|j: int, k: int| 0 <= j < k <= n implies #[trigger] insns_out(
            o,
            v,
            j as nat,
        ).len() < #[trigger] insns_out(o, v, k as nat).len() by {
            if k == n {
                out::ext_facts(insns_out(o, v, j as nat), a);
            }
        }
        assert forall|k: int| #![trigger v[k]] 0 <= k < n implies open_slots(
            insns_out(o, v, (k + 1) as nat),
            v[k],
            insns_out(o, v, k as nat).len(),
        ) by {}
    }
}

/// Filling in for one instruction leaves the slots of later ones empty.
proof fn lemma_fill_one(a: Out, insn: Instruction, k: int, b: Seq<int>, later: Instruction, start: int)
    requires
        a.ok(),
        open_slots(a, later, start),
        open_slots(a, insn, b[k]),
        0 <= b[k],
        0 <= b[k + 1] <= start,
        ({
            let p = round_up(b[k] + 1, a.ps());
            match insn {
                Instruction::BranchAlways { .. } => p + 4 <= b[k + 1],
                Instruction::BranchIfTrue { .. } => p + 4 <= b[k + 1],
                Instruction::BranchIfFalse { .. } => p + 4 <= b[k + 1],
                Instruction::With { .. } => p + a.ps() <= b[k + 1],
                Instruction::Try { .. } => p + 12 <= b[k + 1],
                _ => true,
            }
        }),
    ensures
        open_slots(fill_one(a, insn, k, b), later, start),
{
    broadcast use out::group_ext;

    reveal(open_slots);
    layout::lemma_round_up(start + 1, a.ps());
    layout::lemma_round_up(b[k] + 1, a.ps());
}

/// Filling in for one instruction.
proof fn lemma_fill_one_ext(o: Out, a: Out, insn: Instruction, k: int, b: Seq<int>)
    requires
        o.extends_to(a),
        open_slots(a, insn, b[k]),
        o.len() <= b[k],
        0 <= b[k],
    ensures
        o.extends_to(fill_one(a, insn, k, b)),
        fill_one(a, insn, k, b).len() == a.len(),
        fill_one(a, insn, k, b).ps() == a.ps(),
{
    broadcast use out::group_ext;

    reveal(open_slots);
    layout::lemma_round_up(b[k] + 1, a.ps());
}

pub proof fn lemma_fill_all(o: Out, v: Seq<Instruction>, n: nat)
    requires
        o.ok(),
        n <= v.len(),
    ensures
        ({
            let a = insns_out(o, v, v.len());
            let b = bounds(o, v);
            let f = fill_all(a, v, b, n);
            &&& o.extends_to(f)
            &&& f.len() == a.len()
            &&& f.ps() == o.ps()
            &&& forall|k: int|
                n <= k < v.len() ==> open_slots(f, #[trigger] v[k], insns_out(o, v, k as nat).len())
        }),
    decreases v, v.len() + 1, n,
{
    let a = insns_out(o, v, v.len());
    let b = bounds(o, v);
    lemma_insns(o, v, v.len());
    out::ext_facts(o, a);
    assert forall|k: int| 0 <= k < v.len() implies open_slots(
        a,
        #[trigger] v[k],
        insns_out(o, v, k as nat).len(),
    ) by {
        let c = insns_out(o, v, (k + 1) as nat);
        assert(insns_out(o, v, (k + 1) as nat).extends_to(a));
        lemma_open_kept(c, a, v[k], insns_out(o, v, k as nat).len());
    }
    if n > 0 {
        let m = (n - 1) as nat;
        lemma_fill_all(o, v, m);
        let g = fill_all(a, v, b, m);
        let f = fill_all(a, v, b, n);
        out::ext_facts(o, g);
        let insn = v[m as int];
        let c = insns_out(o, v, n);
        assert(b[m as int] == insns_out(o, v, m).len());
        assert(b[m as int + 1] == c.len());
        assert(insns_out(o, v, m).extends_to(a)) by {
            assert(0 <= m as int <= v.len());
            assert(insns_out(o, v, (m as int) as nat).extends_to(a));
        }
        assert(o.len() <= insns_out(o, v, m).len()) by {
            lemma_insns(o, v, m);
            out::ext_facts(o, insns_out(o, v, m));
        }
        assert(open_slots(g, v[m as int], insns_out(o, v, m).len()));
        assert(open_slots(c, insn, insns_out(o, v, m).len()));
        assert(c.ok() && c.ps() == o.ps()) by {
            lemma_insns(o, v, n);
            out::ext_facts(o, c);
        }
        lemma_open_bounds(c, insn, b[m as int]);
        lemma_fill_one_ext(o, g, insn, m as int, b);
        assert forall|k: int| n <= k < v.len() implies open_slots(
            f,
            #[trigger] v[k],
            insns_out(o, v, k as nat).len(),
        ) by {
            assert(b[n as int] <= b[k]) by {
                if n < k {
                    assert(insns_out(o, v, (n as int) as nat).len() < insns_out(
                        o,
                        v,
                        k as nat,
                    ).len());
                }
            }
            lemma_fill_one(g, insn, m as int, b, v[k], b[k]);
        }
    }
}

pub proof fn lemma_block(o: Out, v: Seq<Instruction>, end_if_empty: bool)
    requires
        o.ok(),
    ensures
        o.extends_to(block(o, v, end_if_empty)),
    decreases v, v.len() + 2, 0int,
{
    if v.len() == 0 && end_if_empty {
        out::ext_put(o, 1, opcode::END as nat);
    } else {
        lemma_fill_all(o, v, v.len());
    }
}

/// The first error stays the first.
pub proof fn lemma_bodies_sticky(v: Seq<Instruction>, i: nat, n: nat)
    requires
        i <= n <= v.len(),
        bodies_err(v, i) is Some,
    ensures
        bodies_err(v, n) == bodies_err(v, i),
    decreases n - i,
{
    if i < n {
        lemma_bodies_sticky(v, i, (n - 1) as nat);
    }
}

/// The first error stays the first.
pub proof fn lemma_targets_sticky(v: Seq<Instruction>, i: nat, n: nat)
    requires
        i <= n,
        targets_err(v, i) is Some,
    ensures
        targets_err(v, n) == targets_err(v, i),
    decreases n - i,
{
    if i < n {
        lemma_targets_sticky(v, i, (n - 1) as nat);
    }
}

} // verus!
