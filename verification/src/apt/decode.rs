//! What decoding an action stream gives.
//!
//! A stream is `[opcode: u8][payload]*` terminated by `End` (0x00). Payloads are
//! C structs aligned to the file's pointer size (on blob-relative offsets);
//! 1/2/4-byte immediates are unaligned.
use super::actions::{DictRefKind, PushStringKind};
use super::model::{self, CatchVar, Instruction, Value};
use super::opcode;
use super::reader::{items, reps, sat, Rd, Src};
use vstd::prelude::*;

verus! {

/// A blob and the constants that its streams refer to.
pub struct Ctx {
    pub src: Src,
    pub consts: Seq<Value>,
}

/// Byte offsets that become instruction indices once all boundaries are known.
pub enum Fix {
    Nothing,
    /// Branch / With: absolute target offset in the blob.
    Target(u64),
    /// Try: absolute end offsets of the try, catch and finally blocks.
    TryEnds(u64, u64, u64),
}

/// An instruction with its offset, its extents not yet resolved.
pub struct Raw {
    pub start: u64,
    pub insn: Instruction,
    pub fix: Fix,
}

/// Whether `op` is an opcode that carries no payload.
pub open spec fn simple(op: u8) -> bool {
    ||| 0x04 <= op <= 0x15
    ||| 0x17 <= op <= 0x18
    ||| 0x1C <= op <= 0x1D
    ||| 0x20 <= op <= 0x2C
    ||| 0x30 <= op <= 0x37
    ||| 0x3A <= op <= 0x56
    ||| 0x58 <= op <= 0x5E
    ||| 0x60 <= op <= 0x67
    ||| op == 0x69
    ||| 0x70 <= op <= 0x76
    ||| op == 0x8A
    ||| op == 0x9A
    ||| op == 0x9E
    ||| op == 0xBA
}

/// Two single bytes, the low one first.
pub open spec fn unaligned_u16(src: Src, c: Rd) -> (u16, Rd) {
    let (b0, c) = src.u8(c);
    let (b1, c) = src.u8(c);
    ((b0 + 0x100 * b1) as u16, c)
}

/// Four single bytes, the low one first.
pub open spec fn unaligned_u32(src: Src, c: Rd) -> (u32, Rd) {
    let (b0, c) = src.u8(c);
    let (b1, c) = src.u8(c);
    let (b2, c) = src.u8(c);
    let (b3, c) = src.u8(c);
    ((b0 + 0x100 * b1 + 0x1_0000 * b2 + 0x100_0000 * b3) as u32, c)
}

/// A slot that holds the index of a constant.
pub open spec fn pool_item(x: Ctx, c: Rd) -> (Value, Rd) {
    let (index, c) = x.src.ptr(c);
    if c.err is Some {
        (Value::Undefined, c)
    } else if index < x.consts.len() {
        (x.consts[index as int], c)
    } else {
        (
            Value::Undefined,
            c.fail(model::Error::BadConstantIndex { index, count: x.consts.len() as u64 }),
        )
    }
}

pub open spec fn item_step(x: Ctx) -> spec_fn(Rd) -> (Value, Rd) {
    |c: Rd| pool_item(x, c)
}

/// `{ int nItems; ptr apItems }` where each item slot holds a constant's index.
pub open spec fn pool_items(x: Ctx, c: Rd) -> (Seq<Value>, Rd) {
    let (n, c) = x.src.i32(x.src.align_ptr(c));
    let (off, c) = x.src.ptr(c);
    let (got, d) = reps(item_step(x), c.at(off as int), items(n));
    (got, d.at(c.pos))
}

/// The scratch of a function: a number and a pointer, both dead.
pub open spec fn skip_pool(x: Ctx, c: Rd) -> Rd {
    x.src.ptr(x.src.i32(x.src.align_ptr(c)).1).1
}

pub open spec fn name_step(x: Ctx) -> spec_fn(Rd) -> (Seq<char>, Rd) {
    |c: Rd| x.src.ptr_string(c)
}

/// A register and the name of the parameter it holds.
pub open spec fn reg_param(x: Ctx, c: Rd) -> ((u32, Seq<char>), Rd) {
    let (register, c) = x.src.u32(x.src.align_ptr(c));
    let (name, c) = x.src.ptr_string(c);
    ((register, name), c)
}

pub open spec fn param_step(x: Ctx) -> spec_fn(Rd) -> ((u32, Seq<char>), Rd) {
    |c: Rd| reg_param(x, c)
}

/// What precedes a function's body; the position is where the body starts.
pub struct Head<P> {
    pub name: Seq<char>,
    pub params: Seq<P>,
    pub register_count: i16,
    pub flags: i16,
    pub end: int,
}

/// Size of the body and dead scratch, then the body.
pub open spec fn body_extent(x: Ctx, c: Rd) -> (int, Rd) {
    let (size, c) = x.src.i32(x.src.align(c, 4));
    let c = skip_pool(x, c);
    (sat(c.pos, items(size) as int), c)
}

#[verifier::opaque]
pub open spec fn function_head(x: Ctx, c: Rd) -> (Head<Seq<char>>, Rd) {
    let (name, c) = x.src.ptr_string(x.src.align_ptr(c));
    let (n, c) = x.src.i32(x.src.align(c, 4));
    let (off, c) = x.src.ptr(c);
    let (params, d) = reps(name_step(x), c.at(off as int), items(n));
    let (end, c) = body_extent(x, d.at(c.pos));
    (Head { name, params, register_count: 0, flags: 0, end }, c)
}

#[verifier::opaque]
pub open spec fn function2_head(x: Ctx, c: Rd) -> (Head<(u32, Seq<char>)>, Rd) {
    let (name, c) = x.src.ptr_string(x.src.align_ptr(c));
    let (n, c) = x.src.i32(x.src.align(c, 4));
    let (register_count, c) = x.src.i16(c);
    let (flags, c) = x.src.i16(c);
    let (off, c) = x.src.ptr(c);
    let (params, d) = reps(param_step(x), c.at(off as int), items(n));
    let (end, c) = body_extent(x, d.at(c.pos));
    (Head { name, params, register_count, flags, end }, c)
}

/// The payload of `Try`.
#[verifier::opaque]
pub open spec fn try_payload(x: Ctx, c: Rd) -> ((Instruction, Fix), Rd) {
    let (try_size, c) = x.src.u32(x.src.align_ptr(c));
    let (catch_size, c) = x.src.u32(c);
    let (finally_size, c) = x.src.u32(c);
    let (flags, c) = x.src.u8(c);
    let c = x.src.u8(c).1;
    let c = x.src.u8(c).1;
    let (register, c) = x.src.u8(c);
    let (catch_var, c) = if flags & 4 != 0 {
        (Some(CatchVar::Register(register)), x.src.ptr(c).1)
    } else {
        let (s, c) = x.src.ptr_string(c);
        (
            if flags & 1 != 0 {
                Some(CatchVar::Variable(s))
            } else {
                None
            },
            c,
        )
    };
    let t = sat(c.pos, try_size as int);
    let k = sat(t, catch_size as int);
    let f = sat(k, finally_size as int);
    (
        (
            Instruction::Try {
                try_count: 0,
                catch_count: 0,
                finally_count: 0,
                has_catch: flags & 1 != 0,
                has_finally: flags & 2 != 0,
                catch_var,
            },
            Fix::TryEnds(t as u64, k as u64, f as u64),
        ),
        c,
    )
}

/// A pointer-width distance from the end of the payload.
pub open spec fn with_payload(x: Ctx, c: Rd) -> ((Instruction, Fix), Rd) {
    let c = x.src.align_ptr(c);
    let (delta, c) = if x.src.ps == 4 {
        (x.src.i32(c).0 as int, x.src.i32(c).1)
    } else {
        ((x.src.u64(c).0 as i64) as int, x.src.u64(c).1)
    };
    ((Instruction::With { end_target: 0 }, Fix::Target((c.pos + delta) as u64)), c)
}

/// A 4-byte distance from the end of the payload.
pub open spec fn branch_payload(x: Ctx, c: Rd, insn: Instruction) -> ((Instruction, Fix), Rd) {
    let (delta, c) = x.src.i32(x.src.align_ptr(c));
    ((insn, Fix::Target((c.pos + delta) as u64)), c)
}

/// The kind of string push that `op` is.
pub open spec fn push_string_kind(op: u8) -> Option<PushStringKind> {
    if op == 0xA1 {
        Some(PushStringKind::Push)
    } else if op == 0xA4 {
        Some(PushStringKind::GetVar)
    } else if op == 0xA5 {
        Some(PushStringKind::GetMember)
    } else if op == 0xA6 {
        Some(PushStringKind::SetVar)
    } else if op == 0xA7 {
        Some(PushStringKind::SetMember)
    } else {
        None
    }
}

/// The kind of dictionary reference that `op` is.
pub open spec fn dict_ref_kind(op: u8) -> Option<DictRefKind> {
    if op == 0xA2 {
        Some(DictRefKind::PushByte)
    } else if op == 0xA3 {
        Some(DictRefKind::PushWord)
    } else if op == 0xAE {
        Some(DictRefKind::ByteGetVar)
    } else if op == 0xAF {
        Some(DictRefKind::ByteGetMember)
    } else if op == 0xB0 {
        Some(DictRefKind::CallFuncPop)
    } else if op == 0xB1 {
        Some(DictRefKind::CallFuncSetVar)
    } else if op == 0xB2 {
        Some(DictRefKind::CallMethodPop)
    } else if op == 0xB3 {
        Some(DictRefKind::CallMethodSetVar)
    } else {
        None
    }
}

/// An instruction without a body: opcode `op`, found at `at`, its payload at `c`.
#[verifier::opaque]
pub open spec fn flat_insn(x: Ctx, op: u8, at: int, c: Rd) -> ((Instruction, Fix), Rd) {
    let src = x.src;
    if op == opcode::END {
        ((Instruction::End, Fix::Nothing), c)
    } else if op == opcode::GOTO_FRAME {
        let (v, c) = src.i32(src.align_ptr(c));
        ((Instruction::GotoFrame(v), Fix::Nothing), c)
    } else if op == opcode::GET_URL {
        let (url, c) = src.ptr_string(src.align_ptr(c));
        let (target, c) = src.ptr_string(c);
        ((Instruction::GetUrl { url, target }, Fix::Nothing), c)
    } else if op == opcode::STORE_REGISTER {
        let (v, c) = src.i32(src.align_ptr(c));
        ((Instruction::StoreRegister(v), Fix::Nothing), c)
    } else if op == opcode::SET_TARGET {
        let (s, c) = src.ptr_string(src.align_ptr(c));
        ((Instruction::SetTarget(s), Fix::Nothing), c)
    } else if op == opcode::GOTO_LABEL {
        let (s, c) = src.ptr_string(src.align_ptr(c));
        ((Instruction::GotoLabel(s), Fix::Nothing), c)
    } else if op == opcode::GOTO_FRAME2 {
        let (v, c) = src.i32(src.align_ptr(c));
        ((Instruction::GotoFrame2 { play: v != 0 }, Fix::Nothing), c)
    } else if op == opcode::PUSH {
        let (v, c) = pool_items(x, c);
        ((Instruction::Push(v), Fix::Nothing), c)
    } else if op == opcode::DEFINE_DICTIONARY {
        let (v, c) = pool_items(x, c);
        ((Instruction::DefineDictionary(v), Fix::Nothing), c)
    } else if op == opcode::TRY {
        try_payload(x, c)
    } else if op == opcode::WITH {
        with_payload(x, c)
    } else if op == opcode::BRANCH_ALWAYS {
        branch_payload(x, c, Instruction::BranchAlways { target: 0 })
    } else if op == opcode::BRANCH_IF_TRUE {
        branch_payload(x, c, Instruction::BranchIfTrue { target: 0 })
    } else if op == opcode::EA_BRANCH_IF_FALSE {
        branch_payload(x, c, Instruction::BranchIfFalse { target: 0 })
    } else if op == opcode::EA_TRACE_START {
        let (v, c) = unaligned_u32(src, c);
        ((Instruction::TraceStart(v), Fix::Nothing), c)
    } else if push_string_kind(op) is Some {
        let (value, c) = src.ptr_string(src.align_ptr(c));
        (
            (Instruction::PushString { kind: push_string_kind(op)->0, value }, Fix::Nothing),
            c,
        )
    } else if dict_ref_kind(op) is Some {
        let kind = dict_ref_kind(op)->0;
        let (index, c) = if kind == DictRefKind::PushWord {
            unaligned_u16(src, c)
        } else {
            (src.u8(c).0 as u16, src.u8(c).1)
        };
        ((Instruction::DictRef { kind, index }, Fix::Nothing), c)
    } else if op == 0xB4 {
        let (v, c) = unaligned_u32(src, c);
        ((Instruction::PushFloat(v), Fix::Nothing), c)
    } else if op == 0xB5 {
        let (v, c) = src.u8(c);
        ((Instruction::PushByte(v), Fix::Nothing), c)
    } else if op == 0xB6 {
        let (v, c) = unaligned_u16(src, c);
        ((Instruction::PushWord(v), Fix::Nothing), c)
    } else if op == 0xB7 {
        let (v, c) = unaligned_u32(src, c);
        ((Instruction::PushDWord(v), Fix::Nothing), c)
    } else if op == opcode::EA_PUSH_REGISTER {
        let (v, c) = src.u8(c);
        ((Instruction::PushRegister(v), Fix::Nothing), c)
    } else if simple(op) {
        ((Instruction::Simple(op), Fix::Nothing), c)
    } else {
        (
            (Instruction::End, Fix::Nothing),
            c.fail(model::Error::InvalidOpcode { opcode: op, offset: at as u64 }),
        )
    }
}

/// One instruction.
pub open spec fn insn(x: Ctx, c: Rd) -> ((Instruction, Fix), Rd)
    decreases x.src.len() - c.pos, 0int,
{
    let (op, d) = x.src.u8(c);
    if d.err is Some {
        ((Instruction::End, Fix::Nothing), d)
    } else if op == opcode::DEFINE_FUNCTION {
        let (h, b) = function_head(x, d);
        let (body, e) = if b.err is None && c.pos < b.pos <= x.src.len() {
            block(x, b, Some(h.end))
        } else {
            (Seq::empty(), b)
        };
        (
            (Instruction::DefineFunction { name: h.name, params: h.params, body }, Fix::Nothing),
            e.at(h.end),
        )
    } else if op == opcode::DEFINE_FUNCTION2 {
        let (h, b) = function2_head(x, d);
        let (body, e) = if b.err is None && c.pos < b.pos <= x.src.len() {
            block(x, b, Some(h.end))
        } else {
            (Seq::empty(), b)
        };
        (
            (
                Instruction::DefineFunction2 {
                    name: h.name,
                    params: h.params,
                    register_count: h.register_count,
                    flags: h.flags,
                    body,
                },
                Fix::Nothing,
            ),
            e.at(h.end),
        )
    } else {
        flat_insn(x, op, c.pos, d)
    }
}

/// The instructions up to `End` (when `end` is `None`) or up to the offset `end`.
pub open spec fn raws(x: Ctx, c: Rd, end: Option<int>) -> (Seq<Raw>, Rd)
    decreases x.src.len() - c.pos, 1int,
{
    if c.err is Some || (end is Some && c.pos >= end->0) {
        (Seq::empty(), c)
    } else {
        let ((i, fix), d) = insn(x, c);
        let raw = Raw { start: c.pos as u64, insn: i, fix };
        if d.err is Some || !(c.pos < d.pos <= x.src.len()) {
            (Seq::empty(), d)
        } else if i is End && end is None {
            (seq![raw], d)
        } else {
            let (rest, e) = raws(x, d, end);
            (seq![raw] + rest, e)
        }
    }
}

/// The offsets of the instructions and of what follows them.
pub open spec fn boundaries(r: Seq<Raw>, end: int) -> Seq<u64> {
    Seq::new(r.len(), |i: int| r[i].start).push(end as u64)
}

/// `insn` with its target set.
pub open spec fn with_target(insn: Instruction, index: usize) -> Instruction {
    match insn {
        Instruction::With { .. } => Instruction::With { end_target: index },
        Instruction::BranchAlways { .. } => Instruction::BranchAlways { target: index },
        Instruction::BranchIfTrue { .. } => Instruction::BranchIfTrue { target: index },
        Instruction::BranchIfFalse { .. } => Instruction::BranchIfFalse { target: index },
        _ => insn,
    }
}

/// `insn` with the sizes of its three blocks set, where it is `Try`.
pub open spec fn with_counts(insn: Instruction, a: usize, b: usize, c: usize) -> Instruction {
    match insn {
        Instruction::Try { has_catch, has_finally, catch_var, .. } => Instruction::Try {
            try_count: a,
            catch_count: b,
            finally_count: c,
            has_catch,
            has_finally,
            catch_var,
        },
        _ => insn,
    }
}

/// The first of the offsets that is no boundary.
pub open spec fn off_boundary(bounds: Seq<u64>, fix: Fix) -> Option<u64> {
    match fix {
        Fix::Nothing => None,
        Fix::Target(t) => if bounds.contains(t) {
            None
        } else {
            Some(t)
        },
        Fix::TryEnds(t, k, f) => if !bounds.contains(t) {
            Some(t)
        } else if !bounds.contains(k) {
            Some(k)
        } else if !bounds.contains(f) {
            Some(f)
        } else {
            None
        },
    }
}

/// The `i`-th instruction with offsets turned into indices.
pub open spec fn resolve_one(r: Raw, bounds: Seq<u64>, i: int) -> Instruction {
    match r.fix {
        Fix::Nothing => r.insn,
        Fix::Target(t) => with_target(r.insn, bounds.index_of(t) as usize),
        Fix::TryEnds(t, k, f) => {
            let (a, b, c) = (bounds.index_of(t), bounds.index_of(k), bounds.index_of(f));
            with_counts(r.insn, (a - (i + 1)) as usize, (b - a) as usize, (c - b) as usize)
        },
    }
}

/// The first `n` instructions with offsets turned into indices.
pub open spec fn resolve(r: Seq<Raw>, bounds: Seq<u64>, stream: int, c: Rd, n: nat) -> (
    Seq<Instruction>,
    Rd,
)
    decreases n,
{
    if n == 0 {
        (Seq::empty(), c)
    } else {
        let (got, d) = resolve(r, bounds, stream, c, (n - 1) as nat);
        let raw = r[n - 1];
        (
            got.push(resolve_one(raw, bounds, n - 1)),
            match off_boundary(bounds, raw.fix) {
                Some(target) => d.fail(
                    model::Error::BadBranchTarget { target, stream: stream as u64 },
                ),
                None => d,
            },
        )
    }
}

/// A block of instructions.
pub open spec fn block(x: Ctx, c: Rd, end: Option<int>) -> (Seq<Instruction>, Rd)
    decreases x.src.len() - c.pos, 2int,
{
    let (r, d) = raws(x, c, end);
    if d.err is Some {
        (Seq::empty(), d)
    } else {
        resolve(r, boundaries(r, d.pos), c.pos, d, r.len())
    }
}

/// The stream at `off`; a null pointer stands for no instructions.
pub open spec fn stream(x: Ctx, c: Rd, off: u64) -> (Seq<Instruction>, Rd) {
    if c.err is Some || off == 0 {
        (Seq::empty(), c)
    } else {
        let (got, d) = block(x, c.at(off as int), None);
        (got, d.at(c.pos))
    }
}

/// Whether the offsets grow.
pub open spec fn increasing(b: Seq<u64>) -> bool {
    forall|i: int, j: int| 0 <= i < j < b.len() ==> b[i] < b[j]
}

pub proof fn lemma_index_of(b: Seq<u64>, t: u64, i: int)
    requires
        increasing(b),
        0 <= i < b.len(),
        b[i] == t,
    ensures
        b.contains(t),
        b.index_of(t) == i,
{
    let j = b.index_of(t);
    assert(0 <= j < b.len() && b[j] == t);
}

pub proof fn lemma_resolve(r: Seq<Raw>, bounds: Seq<u64>, stream: int, c: Rd, n: nat)
    requires
        n <= r.len(),
    ensures
        resolve(r, bounds, stream, c, n).0.len() == n,
        forall|j: int|
            0 <= j < n ==> #[trigger] resolve(r, bounds, stream, c, n).0[j] == resolve_one(
                r[j],
                bounds,
                j,
            ),
    decreases n,
{
    if n > 0 {
        lemma_resolve(r, bounds, stream, c, (n - 1) as nat);
    }
}

pub proof fn lemma_resolve_sticky(
    r: Seq<Raw>,
    bounds: Seq<u64>,
    stream: int,
    c: Rd,
    i: nat,
    n: nat,
)
    requires
        i <= n,
        resolve(r, bounds, stream, c, i).1.err is Some,
    ensures
        resolve(r, bounds, stream, c, n).1 == resolve(r, bounds, stream, c, i).1,
    decreases n - i,
{
    if i < n {
        lemma_resolve_sticky(r, bounds, stream, c, i, (n - 1) as nat);
    }
}

} // verus!
