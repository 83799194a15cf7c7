//! Standard AVM1 bytecode: the action stream that it spells.
use super::avm1;
use super::narrow;
use super::ReadFault;
use crate::apt::bytes::un_le;
use crate::apt::model::{Instruction, Value};
use crate::apt::opcode as op;
use crate::apt::reader::{latin1, terminator};
use vstd::prelude::*;

verus! {

/// The terminated text at `pos`, and where it ends.
pub open spec fn string_at(d: Seq<u8>, pos: int) -> Result<(Seq<char>, int), ReadFault> {
    match terminator(d, pos) {
        Some(e) => Ok((latin1(d.subrange(pos, e)), e + 1)),
        None => Err(ReadFault::UnterminatedString),
    }
}

/// What follows is preceded by `got`.
pub open spec fn after_all<T>(
    got: Seq<T>,
    rest: Result<(Seq<T>, int), ReadFault>,
) -> Result<(Seq<T>, int), ReadFault> {
    match rest {
        Ok((s, p)) => Ok((got + s, p)),
        Err(e) => Err(e),
    }
}

/// `n` terminated texts from `pos` on, and where the last one ends.
pub open spec fn strings(d: Seq<u8>, pos: int, n: nat) -> Result<
    (Seq<Seq<char>>, int),
    ReadFault,
>
    decreases n,
{
    if n == 0 {
        Ok((Seq::empty(), pos))
    } else {
        match string_at(d, pos) {
            Ok((s, p)) => after_all(seq![s], strings(d, p, (n - 1) as nat)),
            Err(e) => Err(e),
        }
    }
}

/// `n` registers, each with a terminated text, from `pos` on.
pub open spec fn reg_strings(d: Seq<u8>, pos: int, n: nat) -> Result<
    (Seq<(u32, Seq<char>)>, int),
    ReadFault,
>
    decreases n,
{
    if n == 0 {
        Ok((Seq::empty(), pos))
    } else if pos >= d.len() {
        Err(ReadFault::ShortOperand)
    } else {
        match string_at(d, pos + 1) {
            Ok((s, p)) => after_all(
                seq![(d[pos] as u32, s)],
                reg_strings(d, p, (n - 1) as nat),
            ),
            Err(e) => Err(e),
        }
    }
}

/// A number of `n` bytes at `pos`.
pub open spec fn number_at(d: Seq<u8>, pos: int, n: nat) -> Result<nat, ReadFault> {
    if pos + n > d.len() {
        Err(ReadFault::ShortOperand)
    } else {
        Ok(un_le(d, pos, n))
    }
}

/// The pushed value at `pos`, and where it ends.
pub open spec fn value_at(d: Seq<u8>, pos: int) -> Result<(Value, int), ReadFault> {
    let ty = d[pos];
    let q = pos + 1;
    if ty == avm1::PUSH_STRING {
        match string_at(d, q) {
            Ok((s, p)) => Ok((Value::String(s), p)),
            Err(e) => Err(e),
        }
    } else if ty == avm1::PUSH_FLOAT {
        match number_at(d, q, 4) {
            Ok(v) => Ok((Value::Float(v as u32), q + 4)),
            Err(e) => Err(e),
        }
    } else if ty == avm1::PUSH_NULL || ty == avm1::PUSH_UNDEFINED {
        Ok((Value::Undefined, q))
    } else if ty == avm1::PUSH_REGISTER {
        match number_at(d, q, 1) {
            Ok(v) => Ok((Value::Register(v as i32), q + 1)),
            Err(e) => Err(e),
        }
    } else if ty == avm1::PUSH_BOOLEAN {
        match number_at(d, q, 1) {
            Ok(v) => Ok((Value::Boolean(v != 0), q + 1)),
            Err(e) => Err(e),
        }
    } else if ty == avm1::PUSH_DOUBLE {
        // The two halves of a double are swapped.
        match number_at(d, q, 8) {
            Ok(_) => {
                let bits = un_le(d, q, 4) * 0x1_0000_0000 + un_le(d, q + 4, 4);
                Ok((Value::Float(narrow::narrowed(bits as u64) as u32), q + 8))
            },
            Err(e) => Err(e),
        }
    } else if ty == avm1::PUSH_INTEGER {
        match number_at(d, q, 4) {
            Ok(v) => Ok((Value::Integer((v as u32) as i32), q + 4)),
            Err(e) => Err(e),
        }
    } else if ty == avm1::PUSH_CONSTANT8 {
        match number_at(d, q, 1) {
            Ok(v) => Ok((Value::Lookup(v as u32), q + 1)),
            Err(e) => Err(e),
        }
    } else if ty == avm1::PUSH_CONSTANT16 {
        match number_at(d, q, 2) {
            Ok(v) => Ok((Value::Lookup(v as u32), q + 2)),
            Err(e) => Err(e),
        }
    } else {
        Err(ReadFault::UnknownPushType(ty))
    }
}

pub proof fn lemma_terminator_bounds(d: Seq<u8>, i: int)
    requires
        0 <= i,
    ensures
        terminator(d, i) matches Some(e) ==> i <= e < d.len(),
    decreases d.len() - i,
{
    if i < d.len() && d[i] != 0 {
        lemma_terminator_bounds(d, i + 1);
    }
}

/// A value takes at least a byte and ends within the data.
pub proof fn lemma_value_at(d: Seq<u8>, pos: int)
    requires
        0 <= pos < d.len(),
    ensures
        value_at(d, pos) matches Ok(r) ==> pos < r.1 <= d.len(),
{
    lemma_terminator_bounds(d, pos + 1);
}

/// The pushed values from `pos` on.
pub open spec fn values(d: Seq<u8>, pos: int) -> Result<(Seq<Value>, int), ReadFault>
    decreases d.len() - pos,
    when 0 <= pos
    via values_decreases
{
    if pos >= d.len() {
        Ok((Seq::empty(), pos))
    } else {
        match value_at(d, pos) {
            Ok((v, p)) => after_all(seq![v], values(d, p)),
            Err(e) => Err(e),
        }
    }
}

#[via_fn]
proof fn values_decreases(d: Seq<u8>, pos: int) {
    if pos < d.len() {
        lemma_value_at(d, pos);
    }
}

/// Texts as values.
pub open spec fn as_values(v: Seq<Seq<char>>) -> Seq<Value> {
    Seq::new(v.len(), |i: int| Value::String(v[i]))
}

/// The entries of a constant pool; a payload without a count has none.
pub open spec fn pool(d: Seq<u8>) -> Result<Seq<Value>, ReadFault> {
    if d.len() < 2 {
        Ok(Seq::empty())
    } else {
        match strings(d, 2, un_le(d, 0, 2)) {
            Ok((v, _)) => Ok(as_values(v)),
            Err(e) => Err(e),
        }
    }
}

/// An action as it stands: where it starts, the instruction, and the byte that it
/// refers to.
pub struct Raw {
    pub offset: int,
    pub insn: Instruction,
    pub link: Option<int>,
}

/// An action with a body of `size` bytes behind it, where it has one.
pub struct Step {
    pub insn: Instruction,
    pub link: Option<int>,
    pub size: Option<nat>,
}

pub open spec fn plain(insn: Instruction) -> Result<Step, ReadFault> {
    Ok(Step { insn, link: None, size: None })
}

/// A signed 16-bit number.
pub open spec fn short(v: nat) -> int {
    ((v as u16) as i16) as int
}

/// What precedes a function's body.
pub open spec fn function(p: Seq<u8>) -> Result<Step, ReadFault> {
    match string_at(p, 0) {
        Err(e) => Err(e),
        Ok((name, q)) => match number_at(p, q, 2) {
            Err(e) => Err(e),
            Ok(n) => match strings(p, q + 2, n) {
                Err(e) => Err(e),
                Ok((params, r)) => match number_at(p, r, 2) {
                    Err(e) => Err(e),
                    Ok(size) => Ok(
                        Step {
                            insn: Instruction::DefineFunction { name, params, body: Seq::empty() },
                            link: None,
                            size: Some(size),
                        },
                    ),
                },
            },
        },
    }
}

/// What precedes the body of a function with registers.
pub open spec fn function2(p: Seq<u8>) -> Result<Step, ReadFault> {
    match string_at(p, 0) {
        Err(e) => Err(e),
        Ok((name, q)) => match number_at(p, q, 5) {
            Err(e) => Err(e),
            Ok(_) => match reg_strings(p, q + 5, un_le(p, q, 2)) {
                Err(e) => Err(e),
                Ok((params, r)) => match number_at(p, r, 2) {
                    Err(e) => Err(e),
                    Ok(size) => Ok(
                        Step {
                            insn: Instruction::DefineFunction2 {
                                name,
                                params,
                                register_count: p[q + 2] as i16,
                                flags: (un_le(p, q + 3, 2) as u16) as i16,
                                body: Seq::empty(),
                            },
                            link: None,
                            size: Some(size),
                        },
                    ),
                },
            },
        },
    }
}

/// The action with opcode `o` and payload `p` that ends at `after`.
#[verifier::opaque]
pub open spec fn step(o: u8, p: Seq<u8>, after: int) -> Result<Step, ReadFault> {
    if o == op::END {
        plain(Instruction::End)
    } else if o == op::GOTO_FRAME {
        match number_at(p, 0, 2) {
            Ok(v) => plain(Instruction::GotoFrame(v as i32)),
            Err(e) => Err(e),
        }
    } else if o == op::GET_URL {
        match string_at(p, 0) {
            Ok((url, q)) => match string_at(p, q) {
                Ok((target, _)) => plain(Instruction::GetUrl { url, target }),
                Err(e) => Err(e),
            },
            Err(e) => Err(e),
        }
    } else if o == op::STORE_REGISTER {
        plain(
            Instruction::StoreRegister(
                if p.len() > 0 {
                    p[0] as i32
                } else {
                    0
                },
            ),
        )
    } else if o == op::DEFINE_DICTIONARY {
        match pool(p) {
            Ok(v) => plain(Instruction::DefineDictionary(v)),
            Err(e) => Err(e),
        }
    } else if o == op::SET_TARGET {
        match string_at(p, 0) {
            Ok((s, _)) => plain(Instruction::SetTarget(s)),
            Err(e) => Err(e),
        }
    } else if o == op::GOTO_LABEL {
        match string_at(p, 0) {
            Ok((s, _)) => plain(Instruction::GotoLabel(s)),
            Err(e) => Err(e),
        }
    } else if o == op::GOTO_FRAME2 {
        plain(Instruction::GotoFrame2 { play: p.len() > 0 && p[0] % 2 == 1 })
    } else if o == op::PUSH {
        match values(p, 0) {
            Ok((v, _)) => plain(Instruction::Push(v)),
            Err(e) => Err(e),
        }
    } else if o == op::BRANCH_ALWAYS {
        match number_at(p, 0, 2) {
            Ok(v) => Ok(
                Step {
                    insn: Instruction::BranchAlways { target: 0 },
                    link: Some(after + short(v)),
                    size: None,
                },
            ),
            Err(e) => Err(e),
        }
    } else if o == op::BRANCH_IF_TRUE {
        match number_at(p, 0, 2) {
            Ok(v) => Ok(
                Step {
                    insn: Instruction::BranchIfTrue { target: 0 },
                    link: Some(after + short(v)),
                    size: None,
                },
            ),
            Err(e) => Err(e),
        }
    } else if o == op::WITH {
        match number_at(p, 0, 2) {
            Ok(v) => Ok(
                Step {
                    insn: Instruction::With { end_target: 0 },
                    link: Some(after + v),
                    size: None,
                },
            ),
            Err(e) => Err(e),
        }
    } else if o == op::DEFINE_FUNCTION {
        function(p)
    } else if o == op::DEFINE_FUNCTION2 {
        function2(p)
    } else {
        plain(Instruction::Simple(o))
    }
}

/// Where the action at `pos` ends, without a function's body.
pub open spec fn extent(d: Seq<u8>, pos: int) -> Result<int, ReadFault> {
    if d[pos] < 0x80 {
        Ok(pos + 1)
    } else if pos + 3 > d.len() {
        Err(ReadFault::TruncatedLength)
    } else if pos + 3 + un_le(d, pos + 1, 2) > d.len() {
        Err(ReadFault::TruncatedPayload)
    } else {
        Ok(pos + 3 + un_le(d, pos + 1, 2))
    }
}

/// The payload of the action at `pos` that ends at `after`.
pub open spec fn payload(d: Seq<u8>, pos: int, after: int) -> Seq<u8> {
    if d[pos] < 0x80 {
        Seq::empty()
    } else {
        d.subrange(pos + 3, after)
    }
}

/// A function with its body.
pub open spec fn with_body(insn: Instruction, body: Seq<Instruction>) -> Instruction {
    match insn {
        Instruction::DefineFunction { name, params, .. } => Instruction::DefineFunction {
            name,
            params,
            body,
        },
        Instruction::DefineFunction2 { name, params, register_count, flags, .. } => {
            Instruction::DefineFunction2 { name, params, register_count, flags, body }
        },
        _ => insn,
    }
}

/// `n` bytes from `from` on, or as many as there are.
pub open spec fn up_to(d: Seq<u8>, from: int, n: nat) -> Seq<u8> {
    d.subrange(
        from,
        if from + n < d.len() {
            from + n
        } else {
            d.len() as int
        },
    )
}

/// How many bytes there are from `pos` on.
pub open spec fn left(d: Seq<u8>, pos: int) -> int {
    if pos < d.len() {
        d.len() - pos
    } else {
        0
    }
}

/// The actions from `pos` on.
pub open spec fn raws(d: Seq<u8>, pos: int) -> Result<(Seq<Raw>, int), ReadFault>
    decreases d.len(), left(d, pos), 0int,
    when 0 <= pos
{
    if pos >= d.len() {
        Ok((Seq::empty(), pos))
    } else {
        match extent(d, pos) {
            Err(e) => Err(e),
            Ok(after) => match step(d[pos], payload(d, pos, after), after) {
                Err(e) => Err(e),
                Ok(st) => match st.size {
                    None => after_all(
                        seq![Raw { offset: pos, insn: st.insn, link: st.link }],
                        raws(d, after),
                    ),
                    Some(n) => match block(up_to(d, after, n)) {
                        Err(e) => Err(e),
                        Ok(body) => after_all(
                            seq![
                                Raw {
                                    offset: pos,
                                    insn: with_body(st.insn, body),
                                    link: st.link,
                                },
                            ],
                            raws(d, after + n),
                        ),
                    },
                },
            },
        }
    }
}

/// The first of the actions from the `i`-th on that starts at a byte; their number
/// where none does.
pub open spec fn index_of(r: Seq<Raw>, byte: int, i: int) -> int
    decreases r.len() - i,
{
    if i >= r.len() {
        r.len() as int
    } else if r[i].offset == byte {
        i
    } else {
        index_of(r, byte, i + 1)
    }
}

/// An instruction with its target.
pub open spec fn linked(raw: Raw, r: Seq<Raw>) -> Instruction {
    match raw.link {
        Some(byte) => {
            let t = index_of(r, byte, 0) as usize;
            match raw.insn {
                Instruction::BranchAlways { .. } => Instruction::BranchAlways { target: t },
                Instruction::BranchIfTrue { .. } => Instruction::BranchIfTrue { target: t },
                Instruction::With { .. } => Instruction::With { end_target: t },
                _ => raw.insn,
            }
        },
        None => raw.insn,
    }
}

/// The instructions with their targets.
pub open spec fn link_all(r: Seq<Raw>) -> Seq<Instruction> {
    Seq::new(r.len(), |i: int| linked(r[i], r))
}

/// The action stream that bytecode spells.
pub open spec fn block(d: Seq<u8>) -> Result<Seq<Instruction>, ReadFault>
    decreases d.len(), d.len() + 1, 1int,
{
    match raws(d, 0) {
        Ok((r, _)) => Ok(link_all(r)),
        Err(e) => Err(e),
    }
}

} // verus!
