//! Action streams that standard bytecode can spell: they come back as they were.
use super::avm1::{self, Low, Texts};
use super::reading::{self, Raw, Step};
use super::ReadFault;
use crate::apt::bytes::{self, capacity, le, un_le};
use crate::apt::model::{Instruction, Value};
use crate::apt::opcode as op;
use crate::apt::readback::clean;
use crate::apt::reader::{self, to_latin1};
use vstd::prelude::*;

verus! {

/// Whether an opcode has a reading of its own.
pub open spec fn special(o: u8) -> bool {
    ||| o == op::END
    ||| o == op::GOTO_FRAME
    ||| o == op::GET_URL
    ||| o == op::STORE_REGISTER
    ||| o == op::DEFINE_DICTIONARY
    ||| o == op::SET_TARGET
    ||| o == op::GOTO_LABEL
    ||| o == op::GOTO_FRAME2
    ||| o == op::PUSH
    ||| o == op::BRANCH_ALWAYS
    ||| o == op::BRANCH_IF_TRUE
    ||| o == op::WITH
    ||| o == op::DEFINE_FUNCTION
    ||| o == op::DEFINE_FUNCTION2
}

/// A value that bytecode can push as it is.
pub open spec fn plain_value(v: Value) -> bool {
    match v {
        Value::String(s) => clean(s),
        Value::Register(r) => 0 <= r <= 0xFF,
        Value::Lookup(i) => i <= 0xFFFF,
        _ => true,
    }
}

/// An entry that a constant pool can hold as it is.
pub open spec fn plain_entry(v: Value) -> bool {
    match v {
        Value::String(s) => clean(s),
        _ => false,
    }
}

pub open spec fn clean_all(v: Seq<Seq<char>>) -> bool {
    forall|i: int| 0 <= i < v.len() ==> clean(#[trigger] v[i])
}

/// An instruction that bytecode can spell as it is, but for its targets and its
/// body: it has an action of its own, and its operands fit.
pub open spec fn plain_head(insn: Instruction, texts: Texts) -> bool {
    match insn {
        Instruction::End => true,
        Instruction::Simple(o) => !special(o) && !avm1::ea_shorthand(o),
        Instruction::GotoFrame(f) => 0 <= f <= 0xFFFF,
        Instruction::GetUrl { url, target } => {
            clean(url) && clean(target) && url.len() + target.len() + 2 <= 0xFFFF
        },
        Instruction::StoreRegister(r) => 0 <= r <= 0xFF,
        Instruction::SetTarget(t) => clean(t) && t.len() < 0xFFFF,
        Instruction::GotoLabel(l) => clean(l) && l.len() < 0xFFFF,
        Instruction::GotoFrame2 { .. } => true,
        Instruction::Push(v) => {
            &&& forall|i: int| 0 <= i < v.len() ==> plain_value(#[trigger] v[i])
            &&& avm1::pushes(v, v.len()).len() <= 0xFFFF
        },
        Instruction::DefineDictionary(v) => {
            &&& forall|i: int| 0 <= i < v.len() ==> plain_entry(#[trigger] v[i])
            &&& v.len() <= 0xFFFF
            &&& avm1::constant_pool(v, texts).len() <= 0xFFFF
        },
        Instruction::DefineFunction { name, params, .. } => {
            &&& clean(name)
            &&& clean_all(params)
            &&& params.len() <= 0xFFFF
            &&& avm1::function_head(name, params).len() + 2 <= 0xFFFF
        },
        Instruction::DefineFunction2 { name, params, register_count, flags, .. } => {
            &&& clean(name)
            &&& forall|i: int| 0 <= i < params.len() ==> clean((#[trigger] params[i]).1)
            &&& forall|i: int| 0 <= i < params.len() ==> (#[trigger] params[i]).0 <= 0xFF
            &&& params.len() <= 0xFFFF
            &&& 0 <= register_count <= 0xFF
            &&& avm1::function2_head(name, params, register_count, flags).len() + 2 <= 0xFFFF
        },
        Instruction::With { .. } => true,
        Instruction::BranchAlways { .. } => true,
        Instruction::BranchIfTrue { .. } => true,
        _ => false,
    }
}

/// Whether the target of an instruction that starts at `from` is near enough; `at`
/// says where the instructions start.
pub open spec fn reaches(insn: Instruction, from: int, at: Seq<nat>) -> bool {
    match insn {
        Instruction::With { end_target } => {
            &&& end_target < at.len()
            &&& 0 <= at[end_target as int] - (from + 5) <= 0xFFFF
        },
        Instruction::BranchAlways { target } => {
            &&& target < at.len()
            &&& -0x8000 <= at[target as int] - (from + 5) <= 0x7FFF
        },
        Instruction::BranchIfTrue { target } => {
            &&& target < at.len()
            &&& -0x8000 <= at[target as int] - (from + 5) <= 0x7FFF
        },
        _ => true,
    }
}

/// An action stream that bytecode can spell as it is.
pub open spec fn plain(s: Seq<Instruction>, texts: Texts) -> bool
    decreases s, 1nat,
{
    forall|k: int| 0 <= k < s.len() ==> plain_at(#[trigger] s[k], texts, avm1::starts(s, texts), k)
}

/// An instruction that bytecode can spell as it is.
pub open spec fn plain_at(insn: Instruction, texts: Texts, at: Seq<nat>, k: int) -> bool
    decreases insn, 0nat,
{
    &&& plain_head(insn, texts)
    &&& reaches(insn, at[k] as int, at)
    &&& match insn {
        Instruction::DefineFunction { body, .. } => {
            plain(body, texts) && avm1::code(body, texts).len() <= 0xFFFF
        },
        Instruction::DefineFunction2 { body, .. } => {
            plain(body, texts) && avm1::code(body, texts).len() <= 0xFFFF
        },
        _ => true,
    }
}

/// Whether these bytes stand at `pos`.
pub open spec fn holds(d: Seq<u8>, pos: int, b: Seq<u8>) -> bool {
    &&& 0 <= pos
    &&& pos + b.len() <= d.len()
    &&& forall|i: int| 0 <= i < b.len() ==> d[pos + i] == #[trigger] b[i]
}

pub proof fn lemma_split(d: Seq<u8>, pos: int, a: Seq<u8>, b: Seq<u8>)
    requires
        holds(d, pos, a + b),
    ensures
        holds(d, pos, a),
        holds(d, pos + a.len(), b),
{
    assert forall|i: int| 0 <= i < a.len() implies d[pos + i] == #[trigger] a[i] by {
        assert((a + b)[i] == a[i]);
    }
    assert forall|i: int| 0 <= i < b.len() implies d[pos + a.len() + i] == #[trigger] b[i] by {
        assert((a + b)[a.len() + i] == b[i]);
    }
}

pub proof fn lemma_number(d: Seq<u8>, pos: int, v: nat, n: nat)
    requires
        holds(d, pos, le(v, n)),
        v < capacity(n),
    ensures
        un_le(d, pos, n) == v,
        pos + n <= d.len(),
{
    bytes::lemma_le_len(v, n);
    assert forall|i: int| 0 <= i < n implies #[trigger] d[pos + i] == le(v, n)[i] by {
        assert(d[pos + i] == le(v, n)[i]);
    }
    bytes::lemma_un_le_of_le(d, pos, v, n);
}

pub proof fn lemma_text(d: Seq<u8>, pos: int, s: Seq<char>)
    requires
        holds(d, pos, avm1::cstr(s)),
        clean(s),
    ensures
        reading::string_at(d, pos) == Ok::<(Seq<char>, int), ReadFault>(
            (s, pos + avm1::cstr(s).len()),
        ),
        avm1::cstr(s).len() == s.len() + 1,
{
    let b = avm1::cstr(s);
    let e = pos + s.len();
    assert forall|i: int| pos <= i < e implies #[trigger] d[i] != 0 by {
        let k = i - pos;
        assert(d[pos + k] == b[k]);
        assert(b[k] == (s[k] as u32) as u8);
    }
    assert(d[pos + s.len()] == b[s.len() as int]);
    reader::lemma_terminator(d, pos, e);
    assert(d.subrange(pos, e) =~= to_latin1(s)) by {
        assert forall|i: int| 0 <= i < s.len() implies d.subrange(pos, e)[i] == to_latin1(s)[i] by {
            assert(d[pos + i] == b[i]);
        }
    }
    reader::law_latin1_roundtrip(s);
}

proof fn lemma_names_prefix(d: Seq<u8>, pos: int, v: Seq<Seq<char>>, k: nat, n: nat)
    requires
        k <= n,
        holds(d, pos, avm1::param_names(v, n)),
    ensures
        holds(d, pos, avm1::param_names(v, k)),
    decreases n,
{
    if k < n {
        lemma_split(d, pos, avm1::param_names(v, (n - 1) as nat), avm1::cstr(v[n - 1]));
        lemma_names_prefix(d, pos, v, k, (n - 1) as nat);
    }
}

/// The names from the `k`-th on are read back.
pub proof fn lemma_names(d: Seq<u8>, pos: int, v: Seq<Seq<char>>, k: nat)
    requires
        k <= v.len(),
        clean_all(v),
        holds(d, pos, avm1::param_names(v, v.len())),
    ensures
        reading::strings(
            d,
            pos + avm1::param_names(v, k).len(),
            (v.len() - k) as nat,
        ) == Ok::<(Seq<Seq<char>>, int), ReadFault>(
            (v.skip(k as int), pos + avm1::param_names(v, v.len()).len()),
        ),
    decreases v.len() - k,
{
    if k < v.len() {
        lemma_names(d, pos, v, k + 1);
        lemma_names_prefix(d, pos, v, k + 1, v.len());
        lemma_split(d, pos, avm1::param_names(v, k), avm1::cstr(v[k as int]));
        lemma_text(d, pos + avm1::param_names(v, k).len(), v[k as int]);
        assert(seq![v[k as int]] + v.skip(k as int + 1) =~= v.skip(k as int));
    } else {
        assert(v.skip(k as int) =~= Seq::empty());
    }
}

proof fn lemma_params_prefix(d: Seq<u8>, pos: int, v: Seq<(u32, Seq<char>)>, k: nat, n: nat)
    requires
        k <= n,
        holds(d, pos, avm1::reg_params(v, n)),
    ensures
        holds(d, pos, avm1::reg_params(v, k)),
    decreases n,
{
    if k < n {
        let a = avm1::reg_params(v, (n - 1) as nat);
        let b = seq![v[n - 1].0 as u8];
        lemma_split(d, pos, a + b, avm1::cstr(v[n - 1].1));
        lemma_split(d, pos, a, b);
        lemma_params_prefix(d, pos, v, k, (n - 1) as nat);
    }
}

/// The parameters from the `k`-th on are read back.
proof fn lemma_params(d: Seq<u8>, pos: int, v: Seq<(u32, Seq<char>)>, k: nat)
    requires
        k <= v.len(),
        forall|i: int| 0 <= i < v.len() ==> clean((#[trigger] v[i]).1),
        forall|i: int| 0 <= i < v.len() ==> (#[trigger] v[i]).0 <= 0xFF,
        holds(d, pos, avm1::reg_params(v, v.len())),
    ensures
        reading::reg_strings(
            d,
            pos + avm1::reg_params(v, k).len(),
            (v.len() - k) as nat,
        ) == Ok::<(Seq<(u32, Seq<char>)>, int), ReadFault>(
            (v.skip(k as int), pos + avm1::reg_params(v, v.len()).len()),
        ),
    decreases v.len() - k,
{
    if k < v.len() {
        lemma_params(d, pos, v, k + 1);
        lemma_params_prefix(d, pos, v, k + 1, v.len());
        let a = avm1::reg_params(v, k);
        let x = v[k as int];
        let b = seq![x.0 as u8];
        lemma_split(d, pos, a + b, avm1::cstr(x.1));
        lemma_split(d, pos, a, b);
        assert(d[pos + a.len() + 0] == b[0]);
        lemma_text(d, pos + (a + b).len(), x.1);
        assert(seq![x] + v.skip(k as int + 1) =~= v.skip(k as int));
    } else {
        assert(v.skip(k as int) =~= Seq::empty());
    }
}

/// A pushed value is read back.
proof fn lemma_value(d: Seq<u8>, pos: int, v: Value)
    requires
        plain_value(v),
        holds(d, pos, avm1::pushed(v)),
    ensures
        reading::value_at(d, pos) == Ok::<(Value, int), ReadFault>(
            (v, pos + avm1::pushed(v).len()),
        ),
        avm1::pushed(v).len() > 0,
{
    bytes::lemma_capacity();
    let b = avm1::pushed(v);
    match v {
        Value::String(s) => {
            lemma_split(d, pos, seq![avm1::PUSH_STRING], avm1::cstr(s));
            assert(d[pos + 0] == b[0]);
            lemma_text(d, pos + 1, s);
        },
        Value::Float(f) => {
            lemma_split(d, pos, seq![avm1::PUSH_FLOAT], le(f as nat, 4));
            assert(d[pos + 0] == b[0]);
            bytes::lemma_le_len(f as nat, 4);
            lemma_number(d, pos + 1, f as nat, 4);
        },
        Value::Undefined => {
            assert(d[pos + 0] == b[0]);
        },
        Value::Register(r) => {
            assert(d[pos + 0] == b[0] && d[pos + 1] == b[1]);
            reveal_with_fuel(un_le, 2);
        },
        Value::Boolean(x) => {
            assert(d[pos + 0] == b[0] && d[pos + 1] == b[1]);
            reveal_with_fuel(un_le, 2);
        },
        Value::Integer(i) => {
            let n = (i as u32) as nat;
            lemma_split(d, pos, seq![avm1::PUSH_INTEGER], le(n, 4));
            assert(d[pos + 0] == b[0]);
            bytes::lemma_le_len(n, 4);
            lemma_number(d, pos + 1, n, 4);
            crate::apt::readback::lemma_i32_bits(i);
        },
        Value::Lookup(i) => {
            if i <= 0xFF {
                assert(d[pos + 0] == b[0] && d[pos + 1] == b[1]);
                reveal_with_fuel(un_le, 2);
            } else {
                lemma_split(d, pos, seq![avm1::PUSH_CONSTANT16], le(i as nat, 2));
                assert(d[pos + 0] == b[0]);
                bytes::lemma_le_len(i as nat, 2);
                lemma_number(d, pos + 1, i as nat, 2);
            }
        },
    }
}

proof fn lemma_pushes_prefix(d: Seq<u8>, pos: int, v: Seq<Value>, k: nat, n: nat)
    requires
        k <= n,
        holds(d, pos, avm1::pushes(v, n)),
    ensures
        holds(d, pos, avm1::pushes(v, k)),
    decreases n,
{
    if k < n {
        lemma_split(d, pos, avm1::pushes(v, (n - 1) as nat), avm1::pushed(v[n - 1]));
        lemma_pushes_prefix(d, pos, v, k, (n - 1) as nat);
    }
}

/// The pushed values from the `k`-th on are read back.
proof fn lemma_values(d: Seq<u8>, v: Seq<Value>, k: nat)
    requires
        k <= v.len(),
        forall|i: int| 0 <= i < v.len() ==> plain_value(#[trigger] v[i]),
        d == avm1::pushes(v, v.len()),
    ensures
        avm1::pushes(v, k).len() <= d.len(),
        reading::values(d, avm1::pushes(v, k).len() as int) == Ok::<
            (Seq<Value>, int),
            ReadFault,
        >((v.skip(k as int), d.len() as int)),
    decreases v.len() - k,
{
    assert(holds(d, 0, avm1::pushes(v, v.len())));
    lemma_pushes_prefix(d, 0, v, k, v.len());
    if k < v.len() {
        lemma_values(d, v, k + 1);
        lemma_pushes_prefix(d, 0, v, k + 1, v.len());
        lemma_split(d, 0, avm1::pushes(v, k), avm1::pushed(v[k as int]));
        lemma_value(d, avm1::pushes(v, k).len() as int, v[k as int]);
        assert(seq![v[k as int]] + v.skip(k as int + 1) =~= v.skip(k as int));
    } else {
        assert(v.skip(k as int) =~= Seq::empty());
    }
}

/// The texts of a constant pool.
pub open spec fn entry_names(v: Seq<Value>) -> Seq<Seq<char>> {
    Seq::new(v.len(), |i: int| v[i]->String_0)
}

proof fn lemma_entries(v: Seq<Value>, texts: Texts, n: nat)
    requires
        n <= v.len(),
        forall|i: int| 0 <= i < v.len() ==> plain_entry(#[trigger] v[i]),
    ensures
        avm1::pool_entries(v, texts, n) == avm1::param_names(entry_names(v), n),
    decreases n,
{
    if n > 0 {
        lemma_entries(v, texts, (n - 1) as nat);
        assert(plain_entry(v[n - 1]));
    }
}

proof fn lemma_pool(v: Seq<Value>, texts: Texts)
    requires
        forall|i: int| 0 <= i < v.len() ==> plain_entry(#[trigger] v[i]),
        v.len() <= 0xFFFF,
    ensures
        reading::pool(avm1::constant_pool(v, texts)) == Ok::<Seq<Value>, ReadFault>(v),
{
    let d = avm1::constant_pool(v, texts);
    let names = entry_names(v);
    bytes::lemma_capacity();
    bytes::lemma_le_len(v.len(), 2);
    lemma_entries(v, texts, v.len());
    assert(holds(d, 0, le(v.len(), 2) + avm1::param_names(names, v.len())));
    lemma_split(d, 0, le(v.len(), 2), avm1::param_names(names, v.len()));
    lemma_number(d, 0, v.len(), 2);
    assert(clean_all(names)) by {
        assert forall|i: int| 0 <= i < names.len() implies clean(#[trigger] names[i]) by {
            assert(plain_entry(v[i]));
        }
    }
    lemma_names(d, 2, names, 0);
    assert(names.skip(0) =~= names);
    assert(reading::as_values(names) =~= v) by {
        assert forall|i: int| 0 <= i < v.len() implies reading::as_values(names)[i] == v[i] by {
            assert(plain_entry(v[i]));
        }
    }
}

/// The instruction as it is read before its target and its body are known.
pub open spec fn head(insn: Instruction) -> Instruction {
    match insn {
        Instruction::DefineFunction { name, params, .. } => Instruction::DefineFunction {
            name,
            params,
            body: Seq::empty(),
        },
        Instruction::DefineFunction2 { name, params, register_count, flags, .. } => {
            Instruction::DefineFunction2 {
                name,
                params,
                register_count,
                flags,
                body: Seq::empty(),
            }
        },
        _ => unlinked(insn),
    }
}

/// The instruction without its target.
pub open spec fn unlinked(insn: Instruction) -> Instruction {
    match insn {
        Instruction::With { .. } => Instruction::With { end_target: 0 },
        Instruction::BranchAlways { .. } => Instruction::BranchAlways { target: 0 },
        Instruction::BranchIfTrue { .. } => Instruction::BranchIfTrue { target: 0 },
        _ => insn,
    }
}

/// The byte that an instruction refers to.
pub open spec fn link(insn: Instruction, at: Seq<nat>) -> Option<int> {
    match insn {
        Instruction::With { end_target } => Some(at[end_target as int] as int),
        Instruction::BranchAlways { target } => Some(at[target as int] as int),
        Instruction::BranchIfTrue { target } => Some(at[target as int] as int),
        _ => None,
    }
}

/// The body of a function in bytes; other instructions have none.
pub open spec fn inner(insn: Instruction, texts: Texts) -> Option<Seq<u8>> {
    match insn {
        Instruction::DefineFunction { body, .. } => Some(avm1::code(body, texts)),
        Instruction::DefineFunction2 { body, .. } => Some(avm1::code(body, texts)),
        _ => None,
    }
}

/// An action with a payload is found with it.
pub proof fn lemma_op(d: Seq<u8>, pos: int, o: u8, p: Seq<u8>)
    requires
        holds(d, pos, avm1::op_code(o, p)),
        o >= 0x80 ==> p.len() <= 0xFFFF,
        o < 0x80 ==> p.len() == 0,
    ensures
        d[pos] == o,
        reading::extent(d, pos) == Ok::<int, ReadFault>(pos + avm1::op_code(o, p).len()),
        reading::payload(d, pos, pos + avm1::op_code(o, p).len()) == p,
        avm1::op_code(o, p).len() > 0,
        0 <= pos < d.len(),
{
    let b = avm1::op_code(o, p);
    assert(d[pos + 0] == b[0]);
    if o >= 0x80 {
        bytes::lemma_capacity();
        bytes::lemma_le_len(p.len(), 2);
        lemma_split(d, pos, seq![o] + le(p.len(), 2), p);
        lemma_split(d, pos, seq![o], le(p.len(), 2));
        lemma_number(d, pos + 1, p.len(), 2);
        let after = pos + b.len();
        assert(d.subrange(pos + 3, after) =~= p) by {
            assert forall|i: int| 0 <= i < p.len() implies d.subrange(pos + 3, after)[i] == p[i] by {
                assert(d[pos + 3 + i] == p[i]);
            }
        }
    } else {
        assert(p =~= Seq::empty());
    }
}

pub proof fn lemma_function(name: Seq<char>, params: Seq<Seq<char>>, size: nat)
    requires
        clean(name),
        clean_all(params),
        params.len() <= 0xFFFF,
        size <= 0xFFFF,
    ensures
        reading::function(avm1::function_head(name, params) + le(size, 2)) == Ok::<
            Step,
            ReadFault,
        >(
            Step {
                insn: Instruction::DefineFunction { name, params, body: Seq::empty() },
                link: None,
                size: Some(size),
            },
        ),
{
    let h = avm1::function_head(name, params);
    let p = h + le(size, 2);
    let a = avm1::cstr(name);
    let n = le(params.len(), 2);
    let names = avm1::param_names(params, params.len());
    bytes::lemma_capacity();
    bytes::lemma_le_len(size, 2);
    bytes::lemma_le_len(params.len(), 2);
    assert(holds(p, 0, h + le(size, 2)));
    lemma_split(p, 0, h, le(size, 2));
    lemma_split(p, 0, a + n, names);
    lemma_split(p, 0, a, n);
    lemma_text(p, 0, name);
    lemma_number(p, a.len() as int, params.len(), 2);
    lemma_names(p, a.len() as int + 2, params, 0);
    assert(params.skip(0) =~= params);
    lemma_number(p, h.len() as int, size, 2);
}

pub proof fn lemma_function2(
    name: Seq<char>,
    params: Seq<(u32, Seq<char>)>,
    register_count: i16,
    flags: i16,
    size: nat,
)
    requires
        clean(name),
        forall|i: int| 0 <= i < params.len() ==> clean((#[trigger] params[i]).1),
        forall|i: int| 0 <= i < params.len() ==> (#[trigger] params[i]).0 <= 0xFF,
        params.len() <= 0xFFFF,
        0 <= register_count <= 0xFF,
        size <= 0xFFFF,
    ensures
        reading::function2(
            avm1::function2_head(name, params, register_count, flags) + le(size, 2),
        ) == Ok::<Step, ReadFault>(
            Step {
                insn: Instruction::DefineFunction2 {
                    name,
                    params,
                    register_count,
                    flags,
                    body: Seq::empty(),
                },
                link: None,
                size: Some(size),
            },
        ),
{
    let h = avm1::function2_head(name, params, register_count, flags);
    let p = h + le(size, 2);
    let a = avm1::cstr(name);
    let n = le(params.len(), 2);
    let r = seq![register_count as u8];
    let f = le((flags as u16) as nat, 2);
    let regs = avm1::reg_params(params, params.len());
    bytes::lemma_capacity();
    bytes::lemma_le_len(size, 2);
    bytes::lemma_le_len(params.len(), 2);
    bytes::lemma_le_len((flags as u16) as nat, 2);
    assert(holds(p, 0, h + le(size, 2)));
    lemma_split(p, 0, h, le(size, 2));
    lemma_split(p, 0, a + n + r + f, regs);
    lemma_split(p, 0, a + n + r, f);
    lemma_split(p, 0, a + n, r);
    lemma_split(p, 0, a, n);
    lemma_text(p, 0, name);
    let q = a.len() as int;
    lemma_number(p, q, params.len(), 2);
    assert(p[q + 2 + 0] == r[0]);
    lemma_number(p, q + 3, (flags as u16) as nat, 2);
    assert(((flags as u16) as nat as u16) as i16 == flags) by {
        assert((flags as u16) as i16 == flags) by (bit_vector);
    }
    lemma_params(p, q + 5, params, 0);
    assert(params.skip(0) =~= params);
    lemma_number(p, h.len() as int, size, 2);
}

proof fn lemma_short(v: int)
    requires
        -0x8000 <= v <= 0x7FFF,
    ensures
        reading::short((v as u16) as nat) == v,
{
    let x = v as i16;
    assert((x as u16) as i16 == x) by (bit_vector);
    assert(v as u16 == x as u16);
}

/// What an instruction without a body becomes is read as that instruction.
proof fn lemma_flat(d: Seq<u8>, pos: int, insn: Instruction, texts: Texts, at: Seq<nat>)
    requires
        plain_head(insn, texts),
        reaches(insn, pos, at),
        inner(insn, texts) is None,
        holds(d, pos, avm1::insn_code(insn, texts, pos, at)),
    ensures
        ({
            let after = pos + avm1::insn_code(insn, texts, pos, at).len();
            &&& 0 <= pos < after
            &&& pos < d.len()
            &&& reading::extent(d, pos) == Ok::<int, ReadFault>(after)
            &&& reading::step(d[pos], reading::payload(d, pos, after), after) == Ok::<
                Step,
                ReadFault,
            >(Step { insn: head(insn), link: link(insn, at), size: None })
        }),
{
    reveal(avm1::lower);
    reveal(reading::step);
    reveal_with_fuel(avm1::lows_code, 2);
    bytes::lemma_capacity();
    let lows = avm1::lower(insn, texts);
    assert(lows.len() == 1);
    let code = avm1::insn_code(insn, texts, pos, at);
    let size = avm1::low_size(lows[0], 0);
    let low = avm1::low_code(lows[0], pos + size, at, Seq::empty());
    assert(code =~= low);
    match lows[0] {
        Low::Op(o, p) => {
            match insn {
                Instruction::GotoFrame(f) => {
                    bytes::lemma_le_len((f as u16) as nat, 2);
                },
                Instruction::GetUrl { url, target } => {
                    assert(p.len() == url.len() + target.len() + 2);
                },
                _ => {},
            }
            lemma_op(d, pos, o, p);
            match insn {
                Instruction::GotoFrame(f) => {
                    assert(holds(p, 0, le((f as u16) as nat, 2)));
                    lemma_number(p, 0, (f as u16) as nat, 2);
                },
                Instruction::GetUrl { url, target } => {
                    assert(holds(p, 0, avm1::cstr(url) + avm1::cstr(target)));
                    lemma_split(p, 0, avm1::cstr(url), avm1::cstr(target));
                    lemma_text(p, 0, url);
                    lemma_text(p, avm1::cstr(url).len() as int, target);
                },
                Instruction::SetTarget(t) => {
                    assert(holds(p, 0, avm1::cstr(t)));
                    lemma_text(p, 0, t);
                },
                Instruction::GotoLabel(t) => {
                    assert(holds(p, 0, avm1::cstr(t)));
                    lemma_text(p, 0, t);
                },
                Instruction::Push(v) => {
                    lemma_values(p, v, 0);
                    assert(v.skip(0) =~= v);
                },
                Instruction::DefineDictionary(v) => {
                    lemma_pool(v, texts);
                },
                _ => {},
            }
        },
        Low::Jump(t) => {
            let v = at[t as int] - (pos + size);
            let p = le((v as u16) as nat, 2);
            bytes::lemma_le_len((v as u16) as nat, 2);
            lemma_op(d, pos, op::BRANCH_ALWAYS, p);
            assert(holds(p, 0, p));
            lemma_number(p, 0, (v as u16) as nat, 2);
            lemma_short(v);
        },
        Low::If(t) => {
            let v = at[t as int] - (pos + size);
            let p = le((v as u16) as nat, 2);
            bytes::lemma_le_len((v as u16) as nat, 2);
            lemma_op(d, pos, op::BRANCH_IF_TRUE, p);
            assert(holds(p, 0, p));
            lemma_number(p, 0, (v as u16) as nat, 2);
            lemma_short(v);
        },
        Low::With(t) => {
            let v: nat = if at[t as int] > pos + size {
                (at[t as int] - (pos + size)) as nat
            } else {
                0
            };
            let p = le(v, 2);
            bytes::lemma_le_len(v, 2);
            lemma_op(d, pos, op::WITH, p);
            assert(holds(p, 0, p));
            lemma_number(p, 0, v, 2);
        },
        Low::Func(o, h) => {},
    }
}

/// What a function becomes is read as its head, with its body behind it.
proof fn lemma_func(d: Seq<u8>, pos: int, insn: Instruction, texts: Texts, at: Seq<nat>)
    requires
        plain_head(insn, texts),
        inner(insn, texts) matches Some(b) && b.len() <= 0xFFFF,
        holds(d, pos, avm1::insn_code(insn, texts, pos, at)),
    ensures
        ({
            let b = inner(insn, texts)->0;
            let after = pos + avm1::insn_code(insn, texts, pos, at).len() - b.len();
            &&& 0 <= pos < after
            &&& after + b.len() <= d.len()
            &&& reading::extent(d, pos) == Ok::<int, ReadFault>(after)
            &&& reading::step(d[pos], reading::payload(d, pos, after), after) == Ok::<
                Step,
                ReadFault,
            >(Step { insn: head(insn), link: None, size: Some(b.len()) })
            &&& reading::up_to(d, after, b.len()) == b
        }),
{
    reveal(avm1::lower);
    reveal(reading::step);
    reveal_with_fuel(avm1::lows_code, 2);
    bytes::lemma_capacity();
    let b = inner(insn, texts)->0;
    let lows = avm1::lower(insn, texts);
    assert(lows.len() == 1 && lows[0] is Func);
    let o = lows[0]->Func_0;
    let h = lows[0]->Func_1;
    let code = avm1::insn_code(insn, texts, pos, at);
    let p = h + le(b.len(), 2);
    bytes::lemma_le_len(h.len() + 2, 2);
    bytes::lemma_le_len(b.len(), 2);
    assert(code =~= avm1::op_code(o, p) + b);
    lemma_split(d, pos, avm1::op_code(o, p), b);
    lemma_op(d, pos, o, p);
    let after = pos + avm1::op_code(o, p).len();
    assert(reading::up_to(d, after, b.len()) =~= b) by {
        assert forall|i: int| 0 <= i < b.len() implies d[after + i] == b[i] by {}
    }
    match insn {
        Instruction::DefineFunction { name, params, .. } => {
            lemma_function(name, params, b.len());
        },
        Instruction::DefineFunction2 { name, params, register_count, flags, .. } => {
            lemma_function2(name, params, register_count, flags, b.len());
        },
        _ => {},
    }
}

/// The actions that a stream is read as.
pub open spec fn raw_list(s: Seq<Instruction>, texts: Texts) -> Seq<Raw> {
    Seq::new(
        s.len(),
        |i: int|
            Raw {
                offset: avm1::starts(s, texts)[i] as int,
                insn: unlinked(s[i]),
                link: link(s[i], avm1::starts(s, texts)),
            },
    )
}

/// The code of each instruction stands where it starts.
pub proof fn lemma_place(s: Seq<Instruction>, texts: Texts, at: Seq<nat>, k: nat, n: nat)
    requires
        k < n <= s.len(),
    ensures
        ({
            let before = avm1::stream_code(s, texts, at, k);
            holds(
                avm1::stream_code(s, texts, at, n),
                before.len() as int,
                avm1::insn_code(s[k as int], texts, before.len() as int, at),
            )
        }),
    decreases n,
{
    let all = avm1::stream_code(s, texts, at, n);
    let most = avm1::stream_code(s, texts, at, (n - 1) as nat);
    if k < n - 1 {
        lemma_place(s, texts, at, k, (n - 1) as nat);
        let before = avm1::stream_code(s, texts, at, k);
        let c = avm1::insn_code(s[k as int], texts, before.len() as int, at);
        assert forall|i: int| 0 <= i < c.len() implies all[before.len() + i] == #[trigger] c[i] by {
            assert(most[before.len() + i] == c[i]);
        }
    }
}

/// Where an instruction ends the next one starts.
pub proof fn lemma_starts(s: Seq<Instruction>, texts: Texts, k: nat)
    requires
        k < s.len(),
    ensures
        ({
            let at = avm1::starts(s, texts);
            avm1::insn_code(s[k as int], texts, at[k as int] as int, at).len() == at[k as int + 1] - at[k as int]
        }),
{
    let at = avm1::starts(s, texts);
    avm1::lemma_insn_size(s[k as int], texts, at[k as int] as int, at);
}

/// The code of a stream from the `k`-th instruction on is read as those
/// instructions.
proof fn lemma_raws(s: Seq<Instruction>, texts: Texts, k: nat)
    requires
        plain(s, texts),
        k <= s.len(),
    ensures
        reading::raws(avm1::code(s, texts), avm1::starts(s, texts)[k as int] as int) == Ok::<
            (Seq<Raw>, int),
            ReadFault,
        >((raw_list(s, texts).skip(k as int), avm1::code(s, texts).len() as int)),
    decreases s, 0nat, s.len() - k,
{
    let at = avm1::starts(s, texts);
    let d = avm1::code(s, texts);
    let all = raw_list(s, texts);
    avm1::law_code_size(s, texts, k);
    if k < s.len() {
        let insn = s[k as int];
        let pos = at[k as int] as int;
        assert(plain_at(insn, texts, at, k as int));
        lemma_raws(s, texts, k + 1);
        lemma_place(s, texts, at, k, s.len());
        lemma_starts(s, texts, k);
        let next = at[k as int + 1] as int;
        let raw = Raw { offset: pos, insn: unlinked(insn), link: link(insn, at) };
        assert(all.skip(k as int) =~= seq![raw] + all.skip(k as int + 1));
        if inner(insn, texts) is None {
            lemma_flat(d, pos, insn, texts, at);
        } else {
            let b = inner(insn, texts)->0;
            let body = avm1::body_of(insn)->0;
            assert(decreases_to!(s => s[k as int]));
            lemma_func(d, pos, insn, texts, at);
            law_bytecode_roundtrip(body, texts);
            let after = next - b.len();
            assert(reading::block(reading::up_to(d, after, b.len())) == Ok::<
                Seq<Instruction>,
                ReadFault,
            >(body));
            assert(reading::with_body(head(insn), body) == insn);
        }
    } else {
        assert(at[k as int] == d.len());
        assert(all.skip(k as int) =~= Seq::empty());
    }
}

proof fn lemma_size_positive(insn: Instruction, texts: Texts)
    requires
        plain_head(insn, texts),
    ensures
        avm1::insn_size(insn, texts) > 0,
{
    reveal(avm1::lower);
    reveal_with_fuel(avm1::lows_size, 2);
    assert(avm1::lower(insn, texts).len() == 1);
}

proof fn lemma_increasing(s: Seq<Instruction>, texts: Texts, a: nat, b: nat)
    requires
        plain(s, texts),
        a < b <= s.len(),
    ensures
        avm1::starts(s, texts)[a as int] < avm1::starts(s, texts)[b as int],
    decreases b,
{
    let at = avm1::starts(s, texts);
    assert(plain_at(s[b - 1], texts, at, b - 1));
    lemma_size_positive(s[b - 1], texts);
    assert(at[b as int] == at[b - 1] + avm1::insn_size(s[b - 1], texts));
    if a < b - 1 {
        lemma_increasing(s, texts, a, (b - 1) as nat);
    }
}

proof fn lemma_index(s: Seq<Instruction>, texts: Texts, t: nat, i: nat)
    requires
        plain(s, texts),
        i <= t <= s.len(),
    ensures
        reading::index_of(
            raw_list(s, texts),
            avm1::starts(s, texts)[t as int] as int,
            i as int,
        ) == t,
    decreases t - i,
{
    if i < t {
        lemma_increasing(s, texts, i, t);
        lemma_index(s, texts, t, i + 1);
    }
}

/// A stream that bytecode can spell comes back from its bytecode as it was.
pub proof fn law_bytecode_roundtrip(s: Seq<Instruction>, texts: Texts)
    requires
        plain(s, texts),
    ensures
        reading::block(avm1::code(s, texts)) == Ok::<Seq<Instruction>, ReadFault>(s),
    decreases s, 1nat, 0int,
{
    lemma_raws(s, texts, 0);
    let r = raw_list(s, texts);
    let at = avm1::starts(s, texts);
    assert(r.skip(0) =~= r);
    assert forall|k: int| 0 <= k < s.len() implies reading::link_all(r)[k] == s[k] by {
        assert(plain_at(s[k], texts, at, k));
        match s[k] {
            Instruction::With { end_target } => {
                lemma_index(s, texts, end_target as nat, 0);
            },
            Instruction::BranchAlways { target } => {
                lemma_index(s, texts, target as nat, 0);
            },
            Instruction::BranchIfTrue { target } => {
                lemma_index(s, texts, target as nat, 0);
            },
            _ => {},
        }
    }
    assert(reading::link_all(r) =~= s);
}

} // verus!
