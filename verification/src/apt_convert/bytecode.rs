//! Translation between APT action streams and standard SWF AVM1 bytecode.
//!
//! APT keeps the SWF opcode numbers for standard actions but re-encodes their
//! operands and adds shorthand opcodes. Towards SWF the shorthands are *expanded*
//! into plain AVM1 actions and operands take SWF's variable-length form; towards
//! APT plain AVM1 is parsed into the instruction model.
use super::avm1::{self, Texts};
use super::narrow;
use super::reading;
use super::{first_of, Error, ReadFault, Trouble};
use crate::apt::actions::{ActionStream, DictRefKind, Instruction, PushStringKind};
use crate::apt::bytes::{self, le};
use crate::apt::io::{latin1_to_string, string_to_latin1};
use crate::apt::model;
use crate::apt::opcode as op;
use crate::apt::reader;
use crate::apt::types::{F32Bits, Value};
use crate::text;
use vstd::prelude::*;

verus! {

/// A single action, prior to byte assembly.
enum Low {
    /// Opcode with payload; below 0x80 there is none.
    Op(u8, Vec<u8>),
    /// Jump to an instruction.
    Jump(usize),
    /// Jump to an instruction if true.
    If(usize),
    /// A block up to an instruction.
    With(usize),
    /// A function: opcode and what precedes the size of its body.
    Func(u8, Vec<u8>),
}

impl View for Low {
    type V = avm1::Low;

    closed spec fn view(&self) -> avm1::Low {
        match self {
            Low::Op(o, p) => avm1::Low::Op(*o, p@),
            Low::Jump(t) => avm1::Low::Jump(*t),
            Low::If(t) => avm1::Low::If(*t),
            Low::With(t) => avm1::Low::With(*t),
            Low::Func(o, h) => avm1::Low::Func(*o, h@),
        }
    }
}

/// Whether an opcode stands for a composition of standard actions, which a
/// standard player does not know.
pub fn is_ea_shorthand(o: u8) -> (b: bool)
    ensures
        b == avm1::ea_shorthand(o),
{
    matches!(
        o,
        op::EA_PUSH_THIS
            | op::EA_PUSH_GLOBAL
            | op::EA_PUSH_ZERO
            | op::EA_PUSH_ONE
            | op::EA_CALL_FUNC_POP
            | op::EA_CALL_FUNC_SET_VAR
            | op::EA_CALL_METHOD_POP
            | op::EA_CALL_METHOD_SET_VAR
            | op::EA_PUSH_THIS_VAR
            | op::EA_PUSH_GLOBAL_VAR
            | op::EA_PUSH_ZERO_SET_VAR
            | op::EA_PUSH_TRUE
            | op::EA_PUSH_FALSE
            | op::EA_PUSH_NULL
            | op::EA_PUSH_UNDEFINED
            | op::BREAKPOINT
    )
}

fn push_u16(p: &mut Vec<u8>, v: u16)
    ensures
        final(p)@ == old(p)@ + le(v as nat, 2),
{
    p.push((v % 0x100) as u8);
    p.push((v / 0x100) as u8);
    proof {
        reveal_with_fuel(bytes::le, 3);
        assert(p@ =~= old(p)@ + le(v as nat, 2));
    }
}

fn push_u32(p: &mut Vec<u8>, v: u32)
    ensures
        final(p)@ == old(p)@ + le(v as nat, 4),
{
    p.push((v % 0x100) as u8);
    p.push((v / 0x100 % 0x100) as u8);
    p.push((v / 0x1_0000 % 0x100) as u8);
    p.push((v / 0x100_0000) as u8);
    proof {
        reveal_with_fuel(bytes::le, 5);
        assert(p@ =~= old(p)@ + le(v as nat, 4));
    }
}

/// The low 16 bits of a count.
fn push_count(p: &mut Vec<u8>, n: usize)
    ensures
        final(p)@ == old(p)@ + le(n as nat, 2),
{
    let v: u16 = (n % 0x1_0000) as u16;
    push_u16(p, v);
    proof {
        bytes::lemma_capacity();
        bytes::lemma_le_wraps(n as nat, 2);
    }
}

fn push_bytes(p: &mut Vec<u8>, b: &Vec<u8>)
    ensures
        final(p)@ == old(p)@ + b@,
{
    let ghost before = p@;
    let mut i: usize = 0;
    assert(before + b@.take(0) =~= before);
    while i < b.len()
        invariant
            i <= b@.len(),
            p@ == before + b@.take(i as int),
        decreases b@.len() - i,
    {
        p.push(b[i]);
        assert(before + b@.take(i + 1) =~= (before + b@.take(i as int)).push(b@[i as int]));
        i = i + 1;
    }
    assert(b@.take(i as int) =~= b@);
}

fn push_string(p: &mut Vec<u8>, s: &str) -> (r: Result<(), Error>)
    ensures
        match r {
            Ok(_) => avm1::text_err(s@) is None && final(p)@ == old(p)@ + avm1::cstr(s@),
            Err(e) => avm1::text_err(s@) == Some(e@),
        },
{
    match string_to_latin1(s) {
        Ok(b) => {
            push_bytes(p, &b);
            p.push(0);
            assert(p@ =~= old(p)@ + avm1::cstr(s@));
            Ok(())
        },
        Err(_) => Err(Error::NonLatin1(s.to_owned())),
    }
}

/// A terminated text in SWF's encoding.
fn string_bytes(s: &str) -> (r: Result<Vec<u8>, Error>)
    ensures
        match r {
            Ok(b) => avm1::text_err(s@) is None && b@ == avm1::cstr(s@),
            Err(e) => avm1::text_err(s@) == Some(e@),
        },
{
    let mut p: Vec<u8> = Vec::new();
    push_string(&mut p, s)?;
    assert(p@ =~= avm1::cstr(s@));
    Ok(p)
}

fn push_value(p: &mut Vec<u8>, v: &Value) -> (r: Result<(), Error>)
    ensures
        ({
            let bad = match v@ {
                model::Value::String(s) => avm1::text_err(s),
                _ => None,
            };
            match r {
                Ok(_) => bad is None && final(p)@ == old(p)@ + avm1::pushed(v@),
                Err(e) => bad == Some(e@),
            }
        }),
{
    let ghost before = p@;
    match v {
        Value::String(s) => {
            p.push(avm1::PUSH_STRING);
            push_string(p, s.as_str())?;
        },
        Value::Float(f) => {
            p.push(avm1::PUSH_FLOAT);
            push_u32(p, *f);
        },
        Value::Undefined => p.push(avm1::PUSH_UNDEFINED),
        Value::Register(r) => {
            p.push(avm1::PUSH_REGISTER);
            p.push(*r as u8);
        },
        Value::Boolean(b) => {
            p.push(avm1::PUSH_BOOLEAN);
            p.push(
                if *b {
                    1
                } else {
                    0
                },
            );
        },
        Value::Integer(i) => {
            p.push(avm1::PUSH_INTEGER);
            push_u32(p, *i as u32);
        },
        Value::Lookup(i) => {
            let c = encode_constant_ref(*i);
            push_bytes(p, &c);
        },
    }
    assert(p@ =~= before + avm1::pushed(v@));
    Ok(())
}

fn encode_push(items: &[Value]) -> (r: Result<Vec<u8>, Error>)
    ensures
        ({
            let v = model::views(items@);
            match r {
                Ok(b) => avm1::pushes_err(v, v.len()) is None && b@ == avm1::pushes(v, v.len()),
                Err(e) => avm1::pushes_err(v, v.len()) == Some(e@),
            }
        }),
{
    let ghost v = model::views(items@);
    let mut p: Vec<u8> = Vec::new();
    let mut i: usize = 0;
    while i < items.len()
        invariant
            i <= items@.len(),
            v == model::views(items@),
            avm1::pushes_err(v, i as nat) is None,
            p@ == avm1::pushes(v, i as nat),
        decreases items@.len() - i,
    {
        match push_value(&mut p, &items[i]) {
            Ok(_) => {},
            Err(e) => {
                proof {
                    lemma_pushes_err(v, (i + 1) as nat, v.len());
                }
                return Err(e);
            },
        }
        i = i + 1;
    }
    Ok(p)
}

proof fn lemma_pushes_err(v: Seq<model::Value>, i: nat, n: nat)
    requires
        i <= n,
        avm1::pushes_err(v, i) is Some,
    ensures
        avm1::pushes_err(v, n) == avm1::pushes_err(v, i),
    decreases n - i,
{
    if i < n {
        lemma_pushes_err(v, i, (n - 1) as nat);
    }
}

/// The push of one value that cannot fail.
fn push_plain(v: Value) -> (low: Low)
    requires
        !(v is String),
    ensures
        low@ == avm1::push_one(v@),
{
    let mut p: Vec<u8> = Vec::new();
    let r = push_value(&mut p, &v);
    assert(p@ =~= avm1::pushed(v@));
    Low::Op(op::PUSH, p)
}

/// The push of one string.
fn push_text(s: &str) -> (r: Result<Low, Error>)
    ensures
        match r {
            Ok(low) => avm1::text_err(s@) is None && low@ == avm1::push_one(
                model::Value::String(s@),
            ),
            Err(e) => avm1::text_err(s@) == Some(e@),
        },
{
    let mut p: Vec<u8> = Vec::new();
    p.push(avm1::PUSH_STRING);
    push_string(&mut p, s)?;
    assert(p@ =~= avm1::pushed(model::Value::String(s@)));
    Ok(Low::Op(op::PUSH, p))
}

fn encode_constant_ref(index: u32) -> (p: Vec<u8>)
    ensures
        p@ == avm1::constant_ref(index as nat),
{
    let mut p: Vec<u8> = Vec::new();
    if index <= 0xFF {
        p.push(avm1::PUSH_CONSTANT8);
        p.push(index as u8);
    } else {
        p.push(avm1::PUSH_CONSTANT16);
        push_u16(&mut p, (index % 0x1_0000) as u16);
        proof {
            bytes::lemma_capacity();
            bytes::lemma_le_wraps(index as nat, 2);
        }
    }
    assert(p@ =~= avm1::constant_ref(index as nat));
    p
}

fn push_signed(s: &mut String, v: i32)
    ensures
        final(s)@ == old(s)@ + avm1::signed_decimal(v as int),
{
    if v < 0 {
        s.push('-');
        text::push_decimal(s, (-(v as i64)) as u32);
    } else {
        text::push_decimal(s, v as u32);
    }
    assert(s@ =~= old(s)@ + avm1::signed_decimal(v as int));
}

/// The text given for a number.
fn find_text(texts: &[(F32Bits, String)], bits: F32Bits) -> (r: Option<String>)
    ensures
        match r {
            Some(s) => avm1::float_text(model::reg_names(texts@), bits) == Some(s@),
            None => avm1::float_text(model::reg_names(texts@), bits) is None,
        },
{
    let ghost all = model::reg_names(texts@);
    let mut i: usize = 0;
    assert(all.skip(0) =~= all);
    while i < texts.len()
        invariant
            i <= texts@.len(),
            all == model::reg_names(texts@),
            avm1::float_text(all.skip(i as int), bits) == avm1::float_text(all, bits),
        decreases texts@.len() - i,
    {
        assert(all.skip(i as int).skip(1) =~= all.skip(i + 1));
        if texts[i].0 == bits {
            return Some(texts[i].1.clone());
        }
        i = i + 1;
    }
    None
}

/// A value in words. The words for numbers come from `texts`.
fn value_to_string(v: &Value, texts: &[(F32Bits, String)]) -> (r: Option<String>)
    ensures
        match r {
            Some(s) => avm1::value_text(v@, model::reg_names(texts@)) == Some(s@),
            None => avm1::value_text(v@, model::reg_names(texts@)) is None,
        },
{
    let mut out = String::new();
    match v {
        Value::String(s) => {
            return Some(s.clone());
        },
        Value::Integer(i) => push_signed(&mut out, *i),
        Value::Float(f) => {
            return find_text(texts, *f);
        },
        Value::Boolean(b) => text::push_text(
            &mut out,
            if *b {
                "true"
            } else {
                "false"
            },
        ),
        Value::Register(r) => {
            text::push_text(&mut out, "r");
            push_signed(&mut out, *r);
        },
        Value::Lookup(i) => {
            text::push_text(&mut out, "c");
            text::push_decimal(&mut out, *i);
        },
        Value::Undefined => text::push_text(&mut out, "undefined"),
    }
    assert(out@ =~= avm1::value_text(v@, model::reg_names(texts@))->0);
    Some(out)
}

/// The number of entries, then that many terminated texts.
fn encode_constant_pool(items: &[Value], texts: &[(F32Bits, String)]) -> (r: Result<
    Vec<u8>,
    Error,
>)
    ensures
        ({
            let v = model::views(items@);
            let t = model::reg_names(texts@);
            match r {
                Ok(b) => avm1::pool_err(v, t, v.len()) is None && b@ == avm1::constant_pool(v, t),
                Err(e) => avm1::pool_err(v, t, v.len()) == Some(e@),
            }
        }),
{
    let ghost v = model::views(items@);
    let ghost t = model::reg_names(texts@);
    let mut p: Vec<u8> = Vec::new();
    push_count(&mut p, items.len());
    let ghost head = le(items@.len(), 2);
    assert(p@ =~= head + avm1::pool_entries(v, t, 0));
    let mut i: usize = 0;
    while i < items.len()
        invariant
            i <= items@.len(),
            v == model::views(items@),
            t == model::reg_names(texts@),
            avm1::pool_err(v, t, i as nat) is None,
            p@ == head + avm1::pool_entries(v, t, i as nat),
        decreases items@.len() - i,
    {
        let ghost before = p@;
        let r = match value_to_string(&items[i], texts) {
            Some(s) => push_string(&mut p, s.as_str()),
            None => match &items[i] {
                Value::Float(f) => Err(Error::NoFloatText(*f)),
                _ => Ok(()),
            },
        };
        match r {
            Ok(_) => {
                assert(p@ =~= head + avm1::pool_entries(v, t, (i + 1) as nat));
            },
            Err(e) => {
                proof {
                    lemma_pool_err(v, t, (i + 1) as nat, v.len());
                }
                return Err(e);
            },
        }
        i = i + 1;
    }
    Ok(p)
}

proof fn lemma_pool_err(v: Seq<model::Value>, t: Texts, i: nat, n: nat)
    requires
        i <= n,
        avm1::pool_err(v, t, i) is Some,
    ensures
        avm1::pool_err(v, t, n) == avm1::pool_err(v, t, i),
    decreases n - i,
{
    if i < n {
        lemma_pool_err(v, t, i, (n - 1) as nat);
    }
}

proof fn lemma_names_err(v: Seq<Seq<char>>, i: nat, n: nat)
    requires
        i <= n,
        avm1::names_err(v, i) is Some,
    ensures
        avm1::names_err(v, n) == avm1::names_err(v, i),
    decreases n - i,
{
    if i < n {
        lemma_names_err(v, i, (n - 1) as nat);
    }
}

proof fn lemma_reg_params_err(v: Seq<(u32, Seq<char>)>, i: nat, n: nat)
    requires
        i <= n,
        avm1::reg_params_err(v, i) is Some,
    ensures
        avm1::reg_params_err(v, n) == avm1::reg_params_err(v, i),
    decreases n - i,
{
    if i < n {
        lemma_reg_params_err(v, i, (n - 1) as nat);
    }
}

/// What precedes the size of a function's body.
fn function_head(name: &str, params: &Vec<String>) -> (r: Result<Vec<u8>, Error>)
    ensures
        ({
            let v = model::names(params@);
            let bad = first_of(avm1::text_err(name@), avm1::names_err(v, v.len()));
            match r {
                Ok(b) => bad is None && b@ == avm1::function_head(name@, v),
                Err(e) => bad == Some(e@),
            }
        }),
{
    let ghost v = model::names(params@);
    let mut p = string_bytes(name)?;
    push_count(&mut p, params.len());
    let ghost head = p@;
    assert(p@ =~= head + avm1::param_names(v, 0));
    let mut i: usize = 0;
    while i < params.len()
        invariant
            i <= params@.len(),
            v == model::names(params@),
            avm1::text_err(name@) is None,
            avm1::names_err(v, i as nat) is None,
            p@ == head + avm1::param_names(v, i as nat),
        decreases params@.len() - i,
    {
        match push_string(&mut p, params[i].as_str()) {
            Ok(_) => {
                assert(p@ =~= head + avm1::param_names(v, (i + 1) as nat));
            },
            Err(e) => {
                proof {
                    lemma_names_err(v, (i + 1) as nat, v.len());
                }
                return Err(e);
            },
        }
        i = i + 1;
    }
    Ok(p)
}

/// What precedes the size of the body of a function with registers.
fn function2_head(
    name: &str,
    params: &Vec<(u32, String)>,
    register_count: i16,
    flags: i16,
) -> (r: Result<Vec<u8>, Error>)
    ensures
        ({
            let v = model::reg_names(params@);
            let bad = first_of(avm1::text_err(name@), avm1::reg_params_err(v, v.len()));
            match r {
                Ok(b) => bad is None && b@ == avm1::function2_head(
                    name@,
                    v,
                    register_count,
                    flags,
                ),
                Err(e) => bad == Some(e@),
            }
        }),
{
    let ghost v = model::reg_names(params@);
    let mut p = string_bytes(name)?;
    push_count(&mut p, params.len());
    p.push(register_count as u8);
    push_u16(&mut p, flags as u16);
    let ghost head = avm1::cstr(name@) + le(params@.len(), 2) + seq![register_count as u8] + le(
        (flags as u16) as nat,
        2,
    );
    assert(p@ =~= head + avm1::reg_params(v, 0));
    let mut i: usize = 0;
    while i < params.len()
        invariant
            i <= params@.len(),
            v == model::reg_names(params@),
            avm1::text_err(name@) is None,
            avm1::reg_params_err(v, i as nat) is None,
            p@ == head + avm1::reg_params(v, i as nat),
        decreases params@.len() - i,
    {
        p.push(params[i].0 as u8);
        match push_string(&mut p, params[i].1.as_str()) {
            Ok(_) => {
                assert(p@ =~= head + avm1::reg_params(v, (i + 1) as nat));
            },
            Err(e) => {
                proof {
                    lemma_reg_params_err(v, (i + 1) as nat, v.len());
                }
                return Err(e);
            },
        }
        i = i + 1;
    }
    Ok(p)
}

/// The standard actions that a shorthand opcode composes.
fn expand(o: u8) -> (out: Vec<Low>)
    requires
        avm1::ea_shorthand(o),
    ensures
        model::views(out@) == avm1::expansion(o),
{
    let mut out: Vec<Low> = Vec::new();
    match o {
        op::EA_PUSH_THIS => out.push(push_name("this")),
        op::EA_PUSH_GLOBAL => out.push(push_name("_global")),
        op::EA_PUSH_ZERO => out.push(push_plain(Value::Integer(0))),
        op::EA_PUSH_ONE => out.push(push_plain(Value::Integer(1))),
        op::EA_CALL_FUNC_POP => {
            out.push(bare(op::CALL_FUNCTION));
            out.push(bare(op::POP));
        },
        op::EA_CALL_FUNC_SET_VAR => {
            out.push(bare(op::CALL_FUNCTION));
            out.push(bare(op::SET_VARIABLE));
        },
        op::EA_CALL_METHOD_POP => {
            out.push(bare(op::CALL_METHOD));
            out.push(bare(op::POP));
        },
        op::EA_CALL_METHOD_SET_VAR => {
            out.push(bare(op::CALL_METHOD));
            out.push(bare(op::SET_VARIABLE));
        },
        op::EA_PUSH_THIS_VAR => {
            out.push(push_name("this"));
            out.push(bare(op::GET_VARIABLE));
        },
        op::EA_PUSH_GLOBAL_VAR => {
            out.push(push_name("_global"));
            out.push(bare(op::GET_VARIABLE));
        },
        op::EA_PUSH_ZERO_SET_VAR => {
            out.push(push_plain(Value::Integer(0)));
            out.push(bare(op::SET_VARIABLE));
        },
        op::EA_PUSH_TRUE => out.push(push_plain(Value::Boolean(true))),
        op::EA_PUSH_FALSE => out.push(push_plain(Value::Boolean(false))),
        op::EA_PUSH_NULL => out.push(Low::Op(op::PUSH, one_byte(avm1::PUSH_NULL))),
        op::EA_PUSH_UNDEFINED => out.push(Low::Op(op::PUSH, one_byte(avm1::PUSH_UNDEFINED))),
        // A breakpoint is nothing to a normal player.
        _ => {},
    }
    assert(model::views(out@) =~= avm1::expansion(o));
    out
}

fn bare(o: u8) -> (low: Low)
    ensures
        low@ == avm1::bare(o),
{
    let p: Vec<u8> = Vec::new();
    assert(p@ =~= Seq::<u8>::empty());
    Low::Op(o, p)
}

fn one_byte(b: u8) -> (p: Vec<u8>)
    ensures
        p@ == seq![b],
{
    let mut p: Vec<u8> = Vec::new();
    p.push(b);
    assert(p@ =~= seq![b]);
    p
}

/// The push of one of the two names that stand for objects.
fn push_name(s: &'static str) -> (low: Low)
    requires
        s@ == "this"@ || s@ == "_global"@,
    ensures
        low@ == avm1::push_one(model::Value::String(s@)),
{
    proof {
        reveal_strlit("this");
        reveal_strlit("_global");
        assert(reader::is_latin1(s@));
    }
    match push_text(s) {
        Ok(low) => low,
        Err(_) => bare(op::END),
    }
}

fn lower_simple(o: u8) -> (out: Vec<Low>)
    ensures
        model::views(out@) == avm1::lower_simple(o),
{
    let mut out: Vec<Low> = Vec::new();
    if o == op::GET_URL2 {
        // The url and target are taken off the stack: no method, no target and
        // no variables, which is a zero flags byte.
        out.push(Low::Op(op::GET_URL2, one_byte(0)));
    } else if o == op::WAIT_FOR_FRAME {
        // Everything is already loaded, so skipping nothing is the faithful no-op.
        let mut p = one_byte(0);
        p.push(0);
        p.push(0);
        assert(p@ =~= seq![0u8, 0u8, 0u8]);
        out.push(Low::Op(op::WAIT_FOR_FRAME, p));
    } else if is_ea_shorthand(o) {
        return expand(o);
    } else {
        out.push(bare(o));
    }
    assert(model::views(out@) =~= avm1::lower_simple(o));
    out
}

fn push_after_string(out: &mut Vec<Low>, kind: PushStringKind)
    ensures
        model::views(final(out)@) == model::views(old(out)@) + avm1::after_string(kind),
{
    match kind {
        PushStringKind::Push => {},
        PushStringKind::GetVar => out.push(bare(op::GET_VARIABLE)),
        PushStringKind::GetMember => out.push(bare(op::GET_MEMBER)),
        PushStringKind::SetVar => out.push(bare(op::SET_VARIABLE)),
        PushStringKind::SetMember => out.push(bare(op::SET_MEMBER)),
    }
    assert(model::views(out@) =~= model::views(old(out)@) + avm1::after_string(kind));
}

fn push_after_constant(out: &mut Vec<Low>, kind: DictRefKind)
    ensures
        model::views(final(out)@) == model::views(old(out)@) + avm1::after_constant(kind),
{
    match kind {
        DictRefKind::PushByte | DictRefKind::PushWord => {},
        DictRefKind::ByteGetVar => out.push(bare(op::GET_VARIABLE)),
        DictRefKind::ByteGetMember => out.push(bare(op::GET_MEMBER)),
        DictRefKind::CallFuncPop => {
            out.push(bare(op::CALL_FUNCTION));
            out.push(bare(op::POP));
        },
        DictRefKind::CallFuncSetVar => {
            out.push(bare(op::CALL_FUNCTION));
            out.push(bare(op::SET_VARIABLE));
        },
        DictRefKind::CallMethodPop => {
            out.push(bare(op::CALL_METHOD));
            out.push(bare(op::POP));
        },
        DictRefKind::CallMethodSetVar => {
            out.push(bare(op::CALL_METHOD));
            out.push(bare(op::SET_VARIABLE));
        },
    }
    assert(model::views(out@) =~= model::views(old(out)@) + avm1::after_constant(kind));
}

/// Lower one APT instruction into zero or more SWF actions.
fn lower_instruction(insn: &Instruction, texts: &[(F32Bits, String)]) -> (r: Result<
    Vec<Low>,
    Error,
>)
    ensures
        ({
            let t = model::reg_names(texts@);
            match r {
                Ok(v) => avm1::lower_err(insn@, t) is None && model::views(v@) == avm1::lower(
                    insn@,
                    t,
                ),
                Err(e) => avm1::lower_err(insn@, t) == Some(e@),
            }
        }),
{
    reveal(avm1::lower);
    reveal(avm1::lower_err);
    let ghost t = model::reg_names(texts@);
    let mut out: Vec<Low> = Vec::new();
    match insn {
        Instruction::End => out.push(bare(op::END)),
        Instruction::Simple(o) => {
            return Ok(lower_simple(*o));
        },
        Instruction::GotoFrame(f) => {
            let mut p: Vec<u8> = Vec::new();
            push_u16(&mut p, *f as u16);
            assert(p@ =~= le((*f as u16) as nat, 2));
            out.push(Low::Op(op::GOTO_FRAME, p));
        },
        Instruction::GetUrl { url, target } => {
            let mut p = string_bytes(url.as_str())?;
            push_string(&mut p, target.as_str())?;
            out.push(Low::Op(op::GET_URL, p));
        },
        Instruction::StoreRegister(r) => out.push(Low::Op(op::STORE_REGISTER, one_byte(*r as u8))),
        Instruction::SetTarget(s) => out.push(Low::Op(op::SET_TARGET, string_bytes(s.as_str())?)),
        Instruction::GotoLabel(s) => out.push(Low::Op(op::GOTO_LABEL, string_bytes(s.as_str())?)),
        Instruction::GotoFrame2 { play } => out.push(
            Low::Op(
                op::GOTO_FRAME2,
                one_byte(
                    if *play {
                        1
                    } else {
                        0
                    },
                ),
            ),
        ),
        Instruction::Push(items) => out.push(Low::Op(op::PUSH, encode_push(items.as_slice())?)),
        Instruction::DefineDictionary(items) => out.push(
            Low::Op(op::DEFINE_DICTIONARY, encode_constant_pool(items.as_slice(), texts)?),
        ),
        Instruction::DefineFunction { name, params, .. } => out.push(
            Low::Func(op::DEFINE_FUNCTION, function_head(name.as_str(), params)?),
        ),
        Instruction::DefineFunction2 { name, params, register_count, flags, .. } => out.push(
            Low::Func(
                op::DEFINE_FUNCTION2,
                function2_head(name.as_str(), params, *register_count, *flags)?,
            ),
        ),
        Instruction::With { end_target } => out.push(Low::With(*end_target)),
        Instruction::BranchAlways { target } => out.push(Low::Jump(*target)),
        Instruction::BranchIfTrue { target } => out.push(Low::If(*target)),
        Instruction::BranchIfFalse { target } => {
            // No SWF branch-if-false: negate, and branch if true.
            out.push(bare(op::NOT));
            out.push(Low::If(*target));
        },
        Instruction::Try { .. } => {
            return Err(Error::Unsupported);
        },
        Instruction::TraceStart(_) => {},  // debug-only; drop
        Instruction::PushString { kind, value } => {
            out.push(push_text(value.as_str())?);
            assert(model::views(out@) =~= seq![avm1::push_one(model::Value::String(value@))]);
            push_after_string(&mut out, *kind);
        },
        Instruction::DictRef { kind, index } => {
            out.push(Low::Op(op::PUSH, encode_constant_ref(*index as u32)));
            assert(model::views(out@) =~= seq![
                avm1::Low::Op(op::PUSH, avm1::constant_ref(*index as nat)),
            ]);
            push_after_constant(&mut out, *kind);
        },
        Instruction::PushFloat(v) => out.push(push_plain(Value::Float(*v))),
        Instruction::PushByte(v) => out.push(push_plain(Value::Integer(*v as i32))),
        Instruction::PushWord(v) => out.push(push_plain(Value::Integer(*v as i32))),
        Instruction::PushDWord(v) => out.push(push_plain(Value::Integer(*v as i32))),
        Instruction::PushRegister(v) => out.push(push_plain(Value::Register(*v as i32))),
    }
    assert(model::views(out@) =~= avm1::lower(insn@, t));
    Ok(out)
}

/// Places as numbers.
spec fn places(at: Seq<usize>) -> Seq<nat> {
    Seq::new(at.len(), |i: int| at[i] as nat)
}

fn emit_op(buf: &mut Vec<u8>, o: u8, payload: &Vec<u8>)
    ensures
        final(buf)@ == old(buf)@ + avm1::op_code(o, payload@),
{
    buf.push(o);
    if o >= 0x80 {
        push_count(buf, payload.len());
        push_bytes(buf, payload);
    }
    assert(buf@ =~= old(buf)@ + avm1::op_code(o, payload@));
}

/// An action with a 16-bit operand.
fn emit_short(buf: &mut Vec<u8>, o: u8, v: u16)
    requires
        o >= 0x80,
    ensures
        final(buf)@ == old(buf)@ + avm1::op_code(o, le(v as nat, 2)),
{
    let mut p: Vec<u8> = Vec::new();
    push_u16(&mut p, v);
    assert(p@ =~= le(v as nat, 2));
    emit_op(buf, o, &p);
}

/// Whether the targets of an action are known.
spec fn known(low: avm1::Low, n: nat) -> bool {
    match low {
        avm1::Low::Jump(t) => t < n,
        avm1::Low::If(t) => t < n,
        avm1::Low::With(t) => t < n,
        _ => true,
    }
}

fn emit_low(buf: &mut Vec<u8>, low: &Low, at: &Vec<usize>, inner: &Vec<u8>)
    requires
        known(low@, at@.len()),
    ensures
        final(buf)@ == old(buf)@ + avm1::low_code(
            low@,
            (old(buf)@.len() + avm1::low_size(low@, inner@.len())) as int,
            places(at@),
            inner@,
        ),
{
    let ghost before = buf@;
    let after: i128 = buf.len() as i128 + 5;
    match low {
        Low::Op(o, p) => emit_op(buf, *o, p),
        Low::Jump(t) => {
            let d: i128 = at[*t] as i128 - after;
            emit_short(buf, op::BRANCH_ALWAYS, d as u16);
        },
        Low::If(t) => {
            let d: i128 = at[*t] as i128 - after;
            emit_short(buf, op::BRANCH_IF_TRUE, d as u16);
        },
        Low::With(t) => {
            let target: i128 = at[*t] as i128;
            let size: usize = if target > after {
                (target - after) as usize
            } else {
                0
            };
            let mut p: Vec<u8> = Vec::new();
            push_count(&mut p, size);
            assert(p@ =~= le(size as nat, 2));
            emit_op(buf, op::WITH, &p);
        },
        Low::Func(o, h) => {
            buf.push(*o);
            let mut p: Vec<u8> = Vec::new();
            push_bytes(&mut p, h);
            push_count(&mut p, inner.len());
            push_count(buf, p.len());
            push_bytes(buf, &p);
            push_bytes(buf, inner);
            proof {
                bytes::lemma_le_len(inner@.len(), 2);
            }
        },
    }
    assert(buf@ =~= before + avm1::low_code(
        low@,
        (before.len() + avm1::low_size(low@, inner@.len())) as int,
        places(at@),
        inner@,
    ));
}

/// Whether the actions of an instruction, and its body, are as they should be.
spec fn ready(insn: model::Instruction, t: Texts, lows: Seq<Low>, inner: Seq<u8>, n: nat) -> bool {
    &&& model::views(lows) == avm1::lower(insn, t)
    &&& inner == match avm1::body_of(insn) {
        Some(b) => avm1::code(b, t),
        None => Seq::empty(),
    }
    &&& avm1::branch_err(insn, n) is None
}

proof fn lemma_known(insn: model::Instruction, t: Texts, n: nat, i: int)
    requires
        avm1::branch_err(insn, n) is None,
        0 <= i < avm1::lower(insn, t).len(),
    ensures
        known(avm1::lower(insn, t)[i], n + 1),
{
    reveal(avm1::lower);
}

fn emit_instruction(
    buf: &mut Vec<u8>,
    lows: &Vec<Low>,
    at: &Vec<usize>,
    inner: &Vec<u8>,
    insn: Ghost<model::Instruction>,
    t: Ghost<Texts>,
)
    requires
        at@.len() > 0,
        ready(insn@, t@, lows@, inner@, (at@.len() - 1) as nat),
    ensures
        final(buf)@ == old(buf)@ + avm1::insn_code(
            insn@,
            t@,
            old(buf)@.len() as int,
            places(at@),
        ),
{
    let ghost before = buf@;
    let ghost v = avm1::lower(insn@, t@);
    let ghost from = before.len() as int;
    let mut i: usize = 0;
    assert(buf@ =~= before + avm1::lows_code(v, from, places(at@), inner@, 0));
    while i < lows.len()
        invariant
            i <= lows@.len(),
            at@.len() > 0,
            ready(insn@, t@, lows@, inner@, (at@.len() - 1) as nat),
            v == avm1::lower(insn@, t@),
            from == before.len(),
            buf@ == before + avm1::lows_code(v, from, places(at@), inner@, i as nat),
        decreases lows@.len() - i,
    {
        proof {
            assert(model::views(lows@)[i as int] == lows@[i as int]@);
            lemma_known(insn@, t@, (at@.len() - 1) as nat, i as int);
        }
        emit_low(buf, &lows[i], at, inner);
        assert(buf@ =~= before + avm1::lows_code(v, from, places(at@), inner@, (i + 1) as nat));
        i = i + 1;
    }
    assert(model::views(lows@).len() == lows@.len());
}

/// Assemble lowered actions into bytes. `at` says where the instructions start;
/// the second result says where they did.
fn emit_all(
    lowered: &Vec<Vec<Low>>,
    inners: &Vec<Vec<u8>>,
    at: &Vec<usize>,
    s: Ghost<Seq<model::Instruction>>,
    t: Ghost<Texts>,
) -> (r: (Vec<u8>, Vec<usize>))
    requires
        lowered@.len() == s@.len(),
        inners@.len() == s@.len(),
        at@.len() == s@.len() + 1,
        forall|i: int|
            0 <= i < s@.len() ==> ready(
                s@[i],
                t@,
                (#[trigger] lowered@[i])@,
                inners@[i]@,
                s@.len(),
            ),
    ensures
        r.0@ == avm1::stream_code(s@, t@, places(at@), s@.len()),
        places(r.1@) == avm1::starts(s@, t@),
{
    let mut buf: Vec<u8> = Vec::new();
    let mut offsets: Vec<usize> = Vec::new();
    let mut i: usize = 0;
    while i < lowered.len()
        invariant
            i <= lowered@.len(),
            lowered@.len() == s@.len(),
            inners@.len() == s@.len(),
            at@.len() == s@.len() + 1,
            forall|i: int|
                0 <= i < s@.len() ==> ready(
                    s@[i],
                    t@,
                    (#[trigger] lowered@[i])@,
                    inners@[i]@,
                    s@.len(),
                ),
            buf@ == avm1::stream_code(s@, t@, places(at@), i as nat),
            offsets@.len() == i,
            forall|k: int| 0 <= k < i ==> (#[trigger] offsets@[k]) == avm1::stream_size(s@, t@, k as nat),
        decreases lowered@.len() - i,
    {
        proof {
            avm1::lemma_stream_size(s@, t@, places(at@), i as nat);
        }
        offsets.push(buf.len());
        assert(ready(s@[i as int], t@, lowered@[i as int]@, inners@[i as int]@, s@.len()));
        emit_instruction(&mut buf, &lowered[i], at, &inners[i], Ghost(s@[i as int]), t);
        i = i + 1;
    }
    proof {
        avm1::lemma_stream_size(s@, t@, places(at@), i as nat);
    }
    offsets.push(buf.len());
    assert(places(offsets@) =~= avm1::starts(s@, t@));
    (buf, offsets)
}

proof fn lemma_lowers_err(s: Seq<model::Instruction>, t: Texts, i: nat, n: nat)
    requires
        i <= n,
        avm1::lowers_err(s, t, i) is Some,
    ensures
        avm1::lowers_err(s, t, n) == avm1::lowers_err(s, t, i),
    decreases n - i,
{
    if i < n {
        lemma_lowers_err(s, t, i, (n - 1) as nat);
    }
}

proof fn lemma_bodies_err(s: Seq<model::Instruction>, t: Texts, i: nat, n: nat)
    requires
        i <= n <= s.len(),
        avm1::bodies_err(s, t, i) is Some,
    ensures
        avm1::bodies_err(s, t, n) == avm1::bodies_err(s, t, i),
    decreases n - i,
{
    if i < n {
        lemma_bodies_err(s, t, i, (n - 1) as nat);
    }
}

proof fn lemma_branches_err(s: Seq<model::Instruction>, i: nat, n: nat)
    requires
        i <= n,
        avm1::branches_err(s, i) is Some,
    ensures
        avm1::branches_err(s, n) == avm1::branches_err(s, i),
    decreases n - i,
{
    if i < n {
        lemma_branches_err(s, i, (n - 1) as nat);
    }
}

/// The target of a branch.
fn target_of(insn: &Instruction) -> (r: Option<usize>)
    ensures
        forall|n: nat|
            #[trigger] avm1::branch_err(insn@, n) == match r {
                Some(t) => if t > n {
                    Some(Trouble::UnresolvedBranch(t))
                } else {
                    None
                },
                None => None,
            },
{
    match insn {
        Instruction::With { end_target } => Some(*end_target),
        Instruction::BranchAlways { target } => Some(*target),
        Instruction::BranchIfTrue { target } => Some(*target),
        Instruction::BranchIfFalse { target } => Some(*target),
        _ => None,
    }
}

fn lower_all(stream: &ActionStream, texts: &[(F32Bits, String)]) -> (r: Result<
    Vec<Vec<Low>>,
    Error,
>)
    ensures
        ({
            let t = model::reg_names(texts@);
            match r {
                Ok(v) => {
                    &&& avm1::lowers_err(stream@, t, stream@.len()) is None
                    &&& v@.len() == stream@.len()
                    &&& forall|i: int|
                        0 <= i < v@.len() ==> model::views((#[trigger] v@[i])@) == avm1::lower(
                            stream@[i],
                            t,
                        )
                },
                Err(e) => avm1::lowers_err(stream@, t, stream@.len()) == Some(e@),
            }
        }),
{
    let ghost t = model::reg_names(texts@);
    let mut lowered: Vec<Vec<Low>> = Vec::new();
    let mut i: usize = 0;
    while i < stream.instructions.len()
        invariant
            i <= stream.instructions@.len(),
            t == model::reg_names(texts@),
            avm1::lowers_err(stream@, t, i as nat) is None,
            lowered@.len() == i,
            forall|k: int|
                0 <= k < i ==> model::views((#[trigger] lowered@[k])@) == avm1::lower(
                    stream@[k],
                    t,
                ),
        decreases stream.instructions@.len() - i,
    {
        assert(stream@[i as int] == stream.instructions@[i as int]@);
        match lower_instruction(&stream.instructions[i], texts) {
            Ok(v) => lowered.push(v),
            Err(e) => {
                proof {
                    lemma_lowers_err(stream@, t, (i + 1) as nat, stream@.len());
                }
                return Err(e);
            },
        }
        i = i + 1;
    }
    Ok(lowered)
}

fn check_branches(stream: &ActionStream) -> (r: Result<(), Error>)
    ensures
        match r {
            Ok(_) => {
                &&& avm1::branches_err(stream@, stream@.len()) is None
                &&& forall|i: int|
                    0 <= i < stream@.len() ==> avm1::branch_err(
                        #[trigger] stream@[i],
                        stream@.len(),
                    ) is None
            },
            Err(e) => avm1::branches_err(stream@, stream@.len()) == Some(e@),
        },
{
    let count: usize = stream.instructions.len();
    let mut i: usize = 0;
    while i < count
        invariant
            i <= count,
            count == stream.instructions@.len(),
            avm1::branches_err(stream@, i as nat) is None,
            forall|k: int|
                0 <= k < i ==> avm1::branch_err(#[trigger] stream@[k], stream@.len()) is None,
        decreases count - i,
    {
        assert(stream@[i as int] == stream.instructions@[i as int]@);
        let r = target_of(&stream.instructions[i]);
        assert(avm1::branch_err(stream@[i as int], count as nat) == match r {
            Some(t) => if t > count {
                Some(Trouble::UnresolvedBranch(t))
            } else {
                None
            },
            None => None,
        });
        match r {
            Some(t) => if t > count {
                proof {
                    lemma_branches_err(stream@, (i + 1) as nat, stream@.len());
                }
                return Err(Error::UnresolvedBranch(t));
            },
            None => {},
        }
        i = i + 1;
    }
    Ok(())
}

/// The code of a function's body.
fn encode_body(insn: &Instruction, texts: &[(F32Bits, String)]) -> (r: Result<Vec<u8>, Error>)
    ensures
        ({
            let t = model::reg_names(texts@);
            match r {
                Ok(b) => avm1::body_err(insn@, t) is None && b@ == match avm1::body_of(insn@) {
                    Some(b) => avm1::code(b, t),
                    None => Seq::empty(),
                },
                Err(e) => avm1::body_err(insn@, t) == Some(e@),
            }
        }),
    decreases insn,
{
    match insn {
        Instruction::DefineFunction { body, .. } => apt_to_swf_actions(body, texts),
        Instruction::DefineFunction2 { body, .. } => apt_to_swf_actions(body, texts),
        _ => Ok(Vec::new()),
    }
}

/// Encode an APT action stream as standard SWF AVM1 bytecode. `texts` gives the
/// words for the numbers in its dictionaries.
pub fn apt_to_swf_actions(stream: &ActionStream, texts: &[(F32Bits, String)]) -> (r: Result<
    Vec<u8>,
    Error,
>)
    ensures
        ({
            let t = model::reg_names(texts@);
            match r {
                Ok(b) => avm1::stream_err(stream@, t) is None && b@ == avm1::code(stream@, t),
                Err(e) => avm1::stream_err(stream@, t) == Some(e@),
            }
        }),
    decreases stream,
{
    let ghost t = model::reg_names(texts@);
    let ghost s = stream@;
    let lowered = lower_all(stream, texts)?;
    let mut inners: Vec<Vec<u8>> = Vec::new();
    let count: usize = stream.instructions.len();
    let mut at: Vec<usize> = Vec::new();
    let mut i: usize = 0;
    while i < count
        invariant
            i <= count,
            count == stream.instructions@.len(),
            t == model::reg_names(texts@),
            s == stream@,
            avm1::lowers_err(s, t, s.len()) is None,
            avm1::bodies_err(s, t, i as nat) is None,
            at@.len() == i,
            inners@.len() == i,
            forall|k: int|
                0 <= k < i ==> (#[trigger] inners@[k])@ == match avm1::body_of(s[k]) {
                    Some(b) => avm1::code(b, t),
                    None => Seq::empty(),
                },
        decreases count - i,
    {
        assert(s[i as int] == stream.instructions@[i as int]@);
        assert(decreases_to!(stream => stream.instructions));
        assert(decreases_to!(stream.instructions => stream.instructions@));
        match encode_body(&stream.instructions[i], texts) {
            Ok(b) => inners.push(b),
            Err(e) => {
                proof {
                    lemma_bodies_err(s, t, (i + 1) as nat, s.len());
                }
                return Err(e);
            },
        }
        at.push(0);
        i = i + 1;
    }
    check_branches(stream)?;
    at.push(0);
    assert forall|i: int| 0 <= i < s.len() implies ready(
        s[i],
        t,
        (#[trigger] lowered@[i])@,
        inners@[i]@,
        s.len(),
    ) by {
        assert(avm1::branch_err(s[i], s.len()) is None);
        assert(inners@[i]@ == match avm1::body_of(s[i]) {
            Some(b) => avm1::code(b, t),
            None => Seq::empty(),
        });
    }
    let (_, offsets) = emit_all(&lowered, &inners, &at, Ghost(s), Ghost(t));
    assert(places(offsets@).len() == offsets@.len());
    let (buf, _) = emit_all(&lowered, &inners, &offsets, Ghost(s), Ghost(t));
    Ok(buf)
}

fn read_u16(d: &[u8], pos: usize) -> (v: u16)
    requires
        pos + 2 <= d@.len(),
    ensures
        v == bytes::un_le(d@, pos as int, 2),
{
    proof {
        reveal_with_fuel(bytes::un_le, 3);
    }
    d[pos] as u16 + 0x100 * (d[pos + 1] as u16)
}

fn read_u32(d: &[u8], pos: usize) -> (v: u32)
    requires
        pos + 4 <= d@.len(),
    ensures
        v == bytes::un_le(d@, pos as int, 4),
{
    proof {
        reveal_with_fuel(bytes::un_le, 5);
    }
    d[pos] as u32 + 0x100 * (d[pos + 1] as u32) + 0x1_0000 * (d[pos + 2] as u32) + 0x100_0000 * (
    d[pos + 3] as u32)
}

/// The 16-bit number at `pos`.
fn short_at(d: &[u8], pos: usize) -> (r: Result<u16, ReadFault>)
    requires
        pos <= d@.len(),
    ensures
        match r {
            Ok(v) => reading::number_at(d@, pos as int, 2) == Ok::<nat, ReadFault>(v as nat) && pos
                + 2 <= d@.len(),
            Err(e) => reading::number_at(d@, pos as int, 2) == Err::<nat, ReadFault>(e),
        },
{
    if d.len() - pos < 2 {
        Err(ReadFault::ShortOperand)
    } else {
        Ok(read_u16(d, pos))
    }
}

/// The byte at `pos`.
fn byte_at(d: &[u8], pos: usize) -> (r: Result<u8, ReadFault>)
    requires
        pos <= d@.len(),
    ensures
        match r {
            Ok(v) => reading::number_at(d@, pos as int, 1) == Ok::<nat, ReadFault>(v as nat) && pos
                + 1 <= d@.len(),
            Err(e) => reading::number_at(d@, pos as int, 1) == Err::<nat, ReadFault>(e),
        },
{
    proof {
        reveal_with_fuel(bytes::un_le, 2);
    }
    if d.len() - pos < 1 {
        Err(ReadFault::ShortOperand)
    } else {
        Ok(d[pos])
    }
}

/// The 32-bit number at `pos`.
fn word_at(d: &[u8], pos: usize) -> (r: Result<u32, ReadFault>)
    requires
        pos <= d@.len(),
    ensures
        match r {
            Ok(v) => reading::number_at(d@, pos as int, 4) == Ok::<nat, ReadFault>(v as nat) && pos
                + 4 <= d@.len(),
            Err(e) => reading::number_at(d@, pos as int, 4) == Err::<nat, ReadFault>(e),
        },
{
    if d.len() - pos < 4 {
        Err(ReadFault::ShortOperand)
    } else {
        Ok(read_u32(d, pos))
    }
}

fn read_string(d: &[u8], pos: usize) -> (r: Result<(String, usize), ReadFault>)
    requires
        pos <= d@.len(),
    ensures
        match r {
            Ok(v) => {
                &&& reading::string_at(d@, pos as int) == Ok::<(Seq<char>, int), ReadFault>(
                    (v.0@, v.1 as int),
                )
                &&& pos < v.1 <= d@.len()
            },
            Err(e) => reading::string_at(d@, pos as int) == Err::<(Seq<char>, int), ReadFault>(e),
        },
{
    let mut end: usize = pos;
    while end < d.len() && d[end] != 0
        invariant
            pos <= end <= d@.len(),
            forall|j: int| pos <= j < end ==> d@[j] != 0,
        decreases d@.len() - end,
    {
        end = end + 1;
    }
    proof {
        reader::lemma_terminator(d@, pos as int, end as int);
    }
    if end < d.len() {
        Ok((latin1_to_string(vstd::slice::slice_subrange(d, pos, end)), end + 1))
    } else {
        Err(ReadFault::UnterminatedString)
    }
}

fn read_strings(d: &[u8], from: usize, n: u16) -> (r: Result<(Vec<String>, usize), ReadFault>)
    requires
        from <= d@.len(),
    ensures
        match r {
            Ok(v) => {
                &&& reading::strings(d@, from as int, n as nat) == Ok::<
                    (Seq<Seq<char>>, int),
                    ReadFault,
                >((model::names(v.0@), v.1 as int))
                &&& v.1 <= d@.len()
            },
            Err(e) => reading::strings(d@, from as int, n as nat) == Err::<
                (Seq<Seq<char>>, int),
                ReadFault,
            >(e),
        },
{
    let mut out: Vec<String> = Vec::new();
    let mut pos: usize = from;
    let mut i: u16 = 0;
    let ghost all = reading::strings(d@, from as int, n as nat);
    proof {
        assert(model::names(out@) =~= Seq::<Seq<char>>::empty());
        if all is Ok {
            assert(model::names(out@) + all->Ok_0.0 =~= all->Ok_0.0);
        }
    }
    while i < n
        invariant
            i <= n,
            pos <= d@.len(),
            all == reading::strings(d@, from as int, n as nat),
            reading::after_all(
                model::names(out@),
                reading::strings(d@, pos as int, (n - i) as nat),
            ) == all,
        decreases n - i,
    {
        let (s, p) = read_string(d, pos)?;
        let ghost before = model::names(out@);
        let ghost rest = reading::strings(d@, p as int, (n - i - 1) as nat);
        out.push(s);
        proof {
            assert(model::names(out@) =~= before.push(s@));
            if rest is Ok {
                assert(before + (seq![s@] + rest->Ok_0.0) =~= before.push(s@) + rest->Ok_0.0);
            }
        }
        pos = p;
        i = i + 1;
    }
    assert(model::names(out@) + Seq::<Seq<char>>::empty() =~= model::names(out@));
    Ok((out, pos))
}

fn read_reg_strings(d: &[u8], from: usize, n: u16) -> (r: Result<
    (Vec<(u32, String)>, usize),
    ReadFault,
>)
    requires
        from <= d@.len(),
    ensures
        match r {
            Ok(v) => {
                &&& reading::reg_strings(d@, from as int, n as nat) == Ok::<
                    (Seq<(u32, Seq<char>)>, int),
                    ReadFault,
                >((model::reg_names(v.0@), v.1 as int))
                &&& v.1 <= d@.len()
            },
            Err(e) => reading::reg_strings(d@, from as int, n as nat) == Err::<
                (Seq<(u32, Seq<char>)>, int),
                ReadFault,
            >(e),
        },
{
    let mut out: Vec<(u32, String)> = Vec::new();
    let mut pos: usize = from;
    let mut i: u16 = 0;
    let ghost all = reading::reg_strings(d@, from as int, n as nat);
    proof {
        assert(model::reg_names(out@) =~= Seq::<(u32, Seq<char>)>::empty());
        if all is Ok {
            assert(model::reg_names(out@) + all->Ok_0.0 =~= all->Ok_0.0);
        }
    }
    while i < n
        invariant
            i <= n,
            pos <= d@.len(),
            all == reading::reg_strings(d@, from as int, n as nat),
            reading::after_all(
                model::reg_names(out@),
                reading::reg_strings(d@, pos as int, (n - i) as nat),
            ) == all,
        decreases n - i,
    {
        if pos == d.len() {
            return Err(ReadFault::ShortOperand);
        }
        let register: u32 = d[pos] as u32;
        let (s, p) = read_string(d, pos + 1)?;
        let ghost before = model::reg_names(out@);
        let ghost rest = reading::reg_strings(d@, p as int, (n - i - 1) as nat);
        out.push((register, s));
        proof {
            let x = (register, s@);
            assert(model::reg_names(out@) =~= before.push(x));
            if rest is Ok {
                assert(before + (seq![x] + rest->Ok_0.0) =~= before.push(x) + rest->Ok_0.0);
            }
        }
        pos = p;
        i = i + 1;
    }
    assert(model::reg_names(out@) + Seq::<(u32, Seq<char>)>::empty() =~= model::reg_names(out@));
    Ok((out, pos))
}

/// The pushed value at `pos`, and where it ends.
fn parse_value(d: &[u8], pos: usize) -> (r: Result<(Value, usize), ReadFault>)
    requires
        pos < d@.len(),
    ensures
        match r {
            Ok(v) => {
                &&& reading::value_at(d@, pos as int) == Ok::<(model::Value, int), ReadFault>(
                    (v.0@, v.1 as int),
                )
                &&& pos < v.1 <= d@.len()
            },
            Err(e) => reading::value_at(d@, pos as int) == Err::<(model::Value, int), ReadFault>(
                e,
            ),
        },
{
    let ty: u8 = d[pos];
    let q: usize = pos + 1;
    match ty {
        avm1::PUSH_STRING => {
            let (s, p) = read_string(d, q)?;
            Ok((Value::String(s), p))
        },
        avm1::PUSH_FLOAT => {
            let v: u32 = word_at(d, q)?;
            Ok((Value::Float(v), q + 4))
        },
        avm1::PUSH_NULL => Ok((Value::Undefined, q)),
        avm1::PUSH_UNDEFINED => Ok((Value::Undefined, q)),
        avm1::PUSH_REGISTER => {
            let v: u8 = byte_at(d, q)?;
            Ok((Value::Register(v as i32), q + 1))
        },
        avm1::PUSH_BOOLEAN => {
            let v: u8 = byte_at(d, q)?;
            Ok((Value::Boolean(v != 0), q + 1))
        },
        avm1::PUSH_DOUBLE => {
            if d.len() - q < 8 {
                return Err(ReadFault::ShortOperand);
            }
            // The two halves of a double are swapped.
            let high: u32 = read_u32(d, q);
            let low: u32 = read_u32(d, q + 4);
            let bits: u64 = high as u64 * 0x1_0000_0000 + low as u64;
            Ok((Value::Float(narrow::narrow(bits)), q + 8))
        },
        avm1::PUSH_INTEGER => {
            let v: u32 = word_at(d, q)?;
            Ok((Value::Integer(v as i32), q + 4))
        },
        avm1::PUSH_CONSTANT8 => {
            let v: u8 = byte_at(d, q)?;
            Ok((Value::Lookup(v as u32), q + 1))
        },
        avm1::PUSH_CONSTANT16 => {
            let v: u16 = short_at(d, q)?;
            Ok((Value::Lookup(v as u32), q + 2))
        },
        other => Err(ReadFault::UnknownPushType(other)),
    }
}

fn parse_push(d: &[u8]) -> (r: Result<Vec<Value>, ReadFault>)
    ensures
        match r {
            Ok(v) => reading::values(d@, 0) matches Ok(got) && got.0 == model::views(v@),
            Err(e) => reading::values(d@, 0) == Err::<(Seq<model::Value>, int), ReadFault>(e),
        },
{
    let mut out: Vec<Value> = Vec::new();
    let mut pos: usize = 0;
    let ghost all = reading::values(d@, 0);
    proof {
        model::lemma_views_empty::<Value>();
        if all is Ok {
            assert(model::views(out@) + all->Ok_0.0 =~= all->Ok_0.0);
        }
    }
    while pos < d.len()
        invariant
            pos <= d@.len(),
            all == reading::values(d@, 0),
            reading::after_all(model::views(out@), reading::values(d@, pos as int)) == all,
        decreases d@.len() - pos,
    {
        let (v, p) = parse_value(d, pos)?;
        let ghost before = model::views(out@);
        let ghost rest = reading::values(d@, p as int);
        out.push(v);
        proof {
            assert(model::views(out@) =~= before.push(v@));
            if rest is Ok {
                assert(before + (seq![v@] + rest->Ok_0.0) =~= before.push(v@) + rest->Ok_0.0);
            }
        }
        pos = p;
    }
    assert(model::views(out@) + Seq::<model::Value>::empty() =~= model::views(out@));
    Ok(out)
}

fn parse_constant_pool(d: &[u8]) -> (r: Result<Vec<Value>, ReadFault>)
    ensures
        match r {
            Ok(v) => reading::pool(d@) == Ok::<Seq<model::Value>, ReadFault>(model::views(v@)),
            Err(e) => reading::pool(d@) == Err::<Seq<model::Value>, ReadFault>(e),
        },
{
    let mut out: Vec<Value> = Vec::new();
    if d.len() < 2 {
        assert(model::views(out@) =~= Seq::<model::Value>::empty());
        return Ok(out);
    }
    let count: u16 = read_u16(d, 0);
    let (names, _) = read_strings(d, 2, count)?;
    let mut i: usize = 0;
    while i < names.len()
        invariant
            i <= names@.len(),
            out@.len() == i,
            forall|k: int|
                0 <= k < i ==> (#[trigger] out@[k])@ == model::Value::String(names@[k]@),
        decreases names@.len() - i,
    {
        out.push(Value::String(names[i].clone()));
        i = i + 1;
    }
    assert(model::views(out@) =~= reading::as_values(model::names(names@)));
    Ok(out)
}

/// An action with a body of `size` bytes behind it, where it has one.
struct Step {
    insn: Instruction,
    link: Option<i128>,
    size: Option<u16>,
}

impl View for Step {
    type V = reading::Step;

    closed spec fn view(&self) -> reading::Step {
        reading::Step {
            insn: self.insn@,
            link: match self.link {
                Some(b) => Some(b as int),
                None => None,
            },
            size: match self.size {
                Some(n) => Some(n as nat),
                None => None,
            },
        }
    }
}

fn plain(insn: Instruction) -> (s: Step)
    ensures
        Ok::<reading::Step, ReadFault>(s@) == reading::plain(insn@),
        s.size is None,
{
    Step { insn, link: None, size: None }
}

/// What precedes a function's body.
fn parse_function(p: &[u8]) -> (r: Result<Step, ReadFault>)
    ensures
        match r {
            Ok(s) => reading::function(p@) == Ok::<reading::Step, ReadFault>(s@),
            Err(e) => reading::function(p@) == Err::<reading::Step, ReadFault>(e),
        },
{
    let total: usize = p.len();
    let (name, q) = read_string(p, 0)?;
    let n: u16 = short_at(p, q)?;
    assert(q + 2 <= total);
    let (params, r) = read_strings(p, q + 2, n)?;
    let size: u16 = short_at(p, r)?;
    let body = ActionStream { instructions: Vec::new() };
    assert(body@ =~= Seq::<model::Instruction>::empty());
    Ok(
        Step {
            insn: Instruction::DefineFunction { name, params, body },
            link: None,
            size: Some(size),
        },
    )
}

/// What precedes the body of a function with registers.
fn parse_function2(p: &[u8]) -> (r: Result<Step, ReadFault>)
    ensures
        match r {
            Ok(s) => reading::function2(p@) == Ok::<reading::Step, ReadFault>(s@),
            Err(e) => reading::function2(p@) == Err::<reading::Step, ReadFault>(e),
        },
{
    let (name, q) = read_string(p, 0)?;
    if p.len() - q < 5 {
        return Err(ReadFault::ShortOperand);
    }
    let n: u16 = read_u16(p, q);
    let register_count: i16 = p[q + 2] as i16;
    let flags: i16 = read_u16(p, q + 3) as i16;
    let (params, r) = read_reg_strings(p, q + 5, n)?;
    let size: u16 = short_at(p, r)?;
    let body = ActionStream { instructions: Vec::new() };
    assert(body@ =~= Seq::<model::Instruction>::empty());
    Ok(
        Step {
            insn: Instruction::DefineFunction2 { name, params, register_count, flags, body },
            link: None,
            size: Some(size),
        },
    )
}

/// The action with opcode `o` and payload `p` that ends at `after`.
fn parse_step(o: u8, p: &[u8], after: usize) -> (r: Result<Step, ReadFault>)
    ensures
        match r {
            Ok(s) => reading::step(o, p@, after as int) == Ok::<reading::Step, ReadFault>(s@),
            Err(e) => reading::step(o, p@, after as int) == Err::<reading::Step, ReadFault>(e),
        },
{
    reveal(reading::step);
    match o {
        op::END => Ok(plain(Instruction::End)),
        op::GOTO_FRAME => {
            let f: u16 = short_at(p, 0)?;
            Ok(plain(Instruction::GotoFrame(f as i32)))
        },
        op::GET_URL => {
            let (url, q) = read_string(p, 0)?;
            let (target, _) = read_string(p, q)?;
            Ok(plain(Instruction::GetUrl { url, target }))
        },
        op::STORE_REGISTER => {
            let r: i32 = if p.len() > 0 {
                p[0] as i32
            } else {
                0
            };
            Ok(plain(Instruction::StoreRegister(r)))
        },
        op::DEFINE_DICTIONARY => Ok(plain(Instruction::DefineDictionary(parse_constant_pool(p)?))),
        op::SET_TARGET => {
            let (s, _) = read_string(p, 0)?;
            Ok(plain(Instruction::SetTarget(s)))
        },
        op::GOTO_LABEL => {
            let (s, _) = read_string(p, 0)?;
            Ok(plain(Instruction::GotoLabel(s)))
        },
        op::GOTO_FRAME2 => Ok(
            plain(Instruction::GotoFrame2 { play: p.len() > 0 && p[0] % 2 == 1 }),
        ),
        op::PUSH => Ok(plain(Instruction::Push(parse_push(p)?))),
        op::BRANCH_ALWAYS => {
            let d: i16 = short_at(p, 0)? as i16;
            Ok(
                Step {
                    insn: Instruction::BranchAlways { target: 0 },
                    link: Some(after as i128 + d as i128),
                    size: None,
                },
            )
        },
        op::BRANCH_IF_TRUE => {
            let d: i16 = short_at(p, 0)? as i16;
            Ok(
                Step {
                    insn: Instruction::BranchIfTrue { target: 0 },
                    link: Some(after as i128 + d as i128),
                    size: None,
                },
            )
        },
        op::WITH => {
            // The block body is the next `size` bytes of inline actions.
            let size: u16 = short_at(p, 0)?;
            Ok(
                Step {
                    insn: Instruction::With { end_target: 0 },
                    link: Some(after as i128 + size as i128),
                    size: None,
                },
            )
        },
        op::DEFINE_FUNCTION => parse_function(p),
        op::DEFINE_FUNCTION2 => parse_function2(p),
        other => Ok(plain(Instruction::Simple(other))),
    }
}

/// An action as it stands.
struct Raw {
    offset: usize,
    insn: Instruction,
    link: Option<i128>,
}

impl View for Raw {
    type V = reading::Raw;

    closed spec fn view(&self) -> reading::Raw {
        reading::Raw {
            offset: self.offset as int,
            insn: self.insn@,
            link: match self.link {
                Some(b) => Some(b as int),
                None => None,
            },
        }
    }
}

/// A function with its body.
fn with_body(insn: Instruction, body: ActionStream) -> (r: Instruction)
    ensures
        r@ == reading::with_body(insn@, body@),
{
    match insn {
        Instruction::DefineFunction { name, params, .. } => Instruction::DefineFunction {
            name,
            params,
            body,
        },
        Instruction::DefineFunction2 { name, params, register_count, flags, .. } => {
            Instruction::DefineFunction2 { name, params, register_count, flags, body }
        },
        other => other,
    }
}

/// Where the action at `pos` ends, without a function's body.
fn action_extent(d: &[u8], pos: usize) -> (r: Result<usize, ReadFault>)
    requires
        pos < d@.len(),
    ensures
        match r {
            Ok(after) => {
                &&& reading::extent(d@, pos as int) == Ok::<int, ReadFault>(after as int)
                &&& pos < after <= d@.len()
            },
            Err(e) => reading::extent(d@, pos as int) == Err::<int, ReadFault>(e),
        },
{
    if d[pos] < 0x80 {
        return Ok(pos + 1);
    }
    let left: usize = d.len() - pos;
    if left < 3 {
        return Err(ReadFault::TruncatedLength);
    }
    let n: u16 = read_u16(d, pos + 1);
    if left - 3 < n as usize {
        return Err(ReadFault::TruncatedPayload);
    }
    Ok(pos + 3 + n as usize)
}

/// The payload of the action at `pos` that ends at `after`.
fn action_payload(d: &[u8], pos: usize, after: usize) -> (p: &[u8])
    requires
        pos < after <= d@.len(),
        reading::extent(d@, pos as int) == Ok::<int, ReadFault>(after as int),
    ensures
        p@ == reading::payload(d@, pos as int, after as int),
{
    if d[pos] < 0x80 {
        let p = vstd::slice::slice_subrange(d, after, after);
        assert(p@ =~= Seq::<u8>::empty());
        p
    } else {
        vstd::slice::slice_subrange(d, pos + 3, after)
    }
}

/// The body of a function that starts at `from`: `n` bytes, or as many as there are.
fn body_bytes(d: &[u8], from: usize, n: u16) -> (p: &[u8])
    requires
        from <= d@.len(),
    ensures
        p@ == reading::up_to(d@, from as int, n as nat),
{
    let left: usize = d.len() - from;
    let end: usize = if (n as usize) < left {
        from + n as usize
    } else {
        d.len()
    };
    vstd::slice::slice_subrange(d, from, end)
}

/// The actions of a block.
fn parse_raws(d: &[u8]) -> (r: Result<Vec<Raw>, ReadFault>)
    ensures
        match r {
            Ok(v) => reading::raws(d@, 0) matches Ok(got) && got.0 == model::views(v@),
            Err(e) => reading::raws(d@, 0) == Err::<(Seq<reading::Raw>, int), ReadFault>(e),
        },
    decreases d@.len(), 0int,
{
    let mut out: Vec<Raw> = Vec::new();
    let mut pos: usize = 0;
    let ghost all = reading::raws(d@, 0);
    let count: usize = d.len();
    let ghost mut place: int = 0;
    proof {
        model::lemma_views_empty::<Raw>();
        if all is Ok {
            assert(model::views(out@) + all->Ok_0.0 =~= all->Ok_0.0);
        }
    }
    while pos < count
        invariant
            pos <= count,
            count == d@.len(),
            pos <= place,
            pos < count ==> place == pos,
            all == reading::raws(d@, 0),
            reading::after_all(model::views(out@), reading::raws(d@, place)) == all,
        decreases count - pos,
    {
        let after: usize = action_extent(d, pos)?;
        let payload = action_payload(d, pos, after);
        let step = parse_step(d[pos], payload, after)?;
        let ghost st = step@;
        let (insn, next) = match step.size {
            None => (step.insn, after),
            Some(n) => {
                let body = parse_block(body_bytes(d, after, n))?;
                let stream = ActionStream { instructions: body };
                assert(stream@ =~= model::views(body@));
                let left: usize = count - after;
                let next: usize = if (n as usize) < left {
                    after + n as usize
                } else {
                    count
                };
                (with_body(step.insn, stream), next)
            },
        };
        let raw = Raw { offset: pos, insn, link: step.link };
        let ghost before = model::views(out@);
        proof {
            place = match st.size {
                None => after as int,
                Some(n) => after + n,
            };
        }
        let ghost rest = reading::raws(d@, place);
        out.push(raw);
        proof {
            assert(model::views(out@) =~= before.push(raw@));
            if rest is Ok {
                assert(before + (seq![raw@] + rest->Ok_0.0) =~= before.push(raw@) + rest->Ok_0.0);
            }
        }
        pos = next;
    }
    assert(model::views(out@) + Seq::<reading::Raw>::empty() =~= model::views(out@));
    Ok(out)
}

/// The first action that starts at a byte; their number where none does.
fn index_of(raws: &Vec<Raw>, byte: i128) -> (k: usize)
    ensures
        k == reading::index_of(model::views(raws@), byte as int, 0),
{
    let ghost v = model::views(raws@);
    let mut k: usize = 0;
    while k < raws.len()
        invariant
            k <= raws@.len(),
            v == model::views(raws@),
            reading::index_of(v, byte as int, k as int) == reading::index_of(v, byte as int, 0),
        decreases raws@.len() - k,
    {
        assert(v[k as int] == raws@[k as int]@);
        if raws[k].offset as i128 == byte {
            return k;
        }
        k = k + 1;
    }
    k
}

/// The target of each action that has one.
fn targets(raws: &Vec<Raw>) -> (out: Vec<Option<usize>>)
    ensures
        out@.len() == raws@.len(),
        forall|i: int|
            0 <= i < raws@.len() ==> (#[trigger] out@[i]) == match raws@[i]@.link {
                Some(b) => Some(reading::index_of(model::views(raws@), b, 0) as usize),
                None => None,
            },
{
    let mut out: Vec<Option<usize>> = Vec::new();
    let mut i: usize = 0;
    while i < raws.len()
        invariant
            i <= raws@.len(),
            out@.len() == i,
            forall|i: int|
                0 <= i < out@.len() ==> (#[trigger] out@[i]) == match raws@[i]@.link {
                    Some(b) => Some(reading::index_of(model::views(raws@), b, 0) as usize),
                    None => None,
                },
        decreases raws@.len() - i,
    {
        let t = match raws[i].link {
            Some(b) => Some(index_of(raws, b)),
            None => None,
        };
        out.push(t);
        i = i + 1;
    }
    out
}

/// An instruction with its target.
fn link(insn: Instruction, target: Option<usize>, raw: Ghost<reading::Raw>, all: Ghost<Seq<reading::Raw>>) -> (r: Instruction)
    requires
        insn@ == raw@.insn,
        target == match raw@.link {
            Some(b) => Some(reading::index_of(all@, b, 0) as usize),
            None => None,
        },
    ensures
        r@ == reading::linked(raw@, all@),
{
    match target {
        Some(t) => match insn {
            Instruction::BranchAlways { .. } => Instruction::BranchAlways { target: t },
            Instruction::BranchIfTrue { .. } => Instruction::BranchIfTrue { target: t },
            Instruction::With { .. } => Instruction::With { end_target: t },
            other => other,
        },
        None => insn,
    }
}

fn parse_block(d: &[u8]) -> (r: Result<Vec<Instruction>, ReadFault>)
    ensures
        match r {
            Ok(v) => reading::block(d@) == Ok::<Seq<model::Instruction>, ReadFault>(
                model::views(v@),
            ),
            Err(e) => reading::block(d@) == Err::<Seq<model::Instruction>, ReadFault>(e),
        },
    decreases d@.len(), 1int,
{
    let raws = parse_raws(d)?;
    let links = targets(&raws);
    let ghost all = model::views(raws@);
    let mut rest = raws;
    let mut back: Vec<Instruction> = Vec::new();
    let ghost n = rest@.len();
    // The instructions are taken from the end and turned around afterwards.
    while rest.len() > 0
        invariant
            rest@.len() + back@.len() == n,
            n == all.len(),
            links@.len() == n,
            all == model::views(rest@) + all.skip(rest@.len() as int),
            forall|i: int|
                0 <= i < n ==> (#[trigger] links@[i]) == match all[i].link {
                    Some(b) => Some(reading::index_of(all, b, 0) as usize),
                    None => None,
                },
            forall|i: int|
                0 <= i < back@.len() ==> (#[trigger] back@[i])@ == reading::linked(
                    all[n - 1 - i],
                    all,
                ),
        decreases rest@.len(),
    {
        let ghost v = model::views(rest@);
        let k: usize = rest.len() - 1;
        let ghost raw = all[k as int];
        proof {
            assert(v[k as int] == rest@[k as int]@);
            assert(all[k as int] == v[k as int]);
        }
        match rest.pop() {
            Some(r) => {
                back.push(link(r.insn, links[k], Ghost(raw), Ghost(all)));
            },
            None => {},
        }
        proof {
            assert(model::views(rest@) =~= v.take(k as int));
            assert(all =~= model::views(rest@) + all.skip(k as int));
        }
    }
    let mut out: Vec<Instruction> = Vec::new();
    while back.len() > 0
        invariant
            out@.len() + back@.len() == n,
            n == all.len(),
            forall|i: int|
                0 <= i < back@.len() ==> (#[trigger] back@[i])@ == reading::linked(
                    all[n - 1 - i],
                    all,
                ),
            forall|i: int|
                0 <= i < out@.len() ==> (#[trigger] out@[i])@ == reading::linked(all[i], all),
        decreases back@.len(),
    {
        match back.pop() {
            Some(insn) => out.push(insn),
            None => {},
        }
    }
    assert(model::views(out@) =~= reading::link_all(all));
    Ok(out)
}

/// Parse standard SWF AVM1 bytecode into an APT action stream.
pub fn swf_to_apt_actions(data: &[u8]) -> (r: Result<ActionStream, Error>)
    ensures
        match r {
            Ok(s) => reading::block(data@) == Ok::<Seq<model::Instruction>, ReadFault>(s@),
            Err(e) => match reading::block(data@) {
                Ok(_) => false,
                Err(f) => e@ == Trouble::SwfRead(f),
            },
        },
{
    match parse_block(data) {
        Ok(instructions) => {
            let s = ActionStream { instructions };
            assert(s@ =~= model::views(instructions@));
            Ok(s)
        },
        Err(f) => Err(Error::SwfRead(f)),
    }
}

} // verus!
