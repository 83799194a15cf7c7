//! What actions do to the stack of a player, and that a shorthand does what the standard
//! actions do that it becomes.
//!
//! Values stand for themselves: a variable that is read is the variable of that name,
//! whatever a player holds in it.
use super::avm1::{self, Low, Texts};
use crate::apt::actions::{DictRefKind, PushStringKind};
use crate::apt::bytes;
use crate::apt::file_format::{half, word};
use crate::apt::model::{Instruction, Value};
use crate::apt::reader::latin1;
use vstd::prelude::*;

verus! {

/// A value on the stack.
pub enum Term {
    Text(Seq<char>),
    Float(u32),
    Null,
    Undefined,
    Register(int),
    Truth(bool),
    Number(int),
    /// An entry of the constant pool.
    Constant(int),
    /// What the variable of this name holds.
    Variable(Box<Term>),
    /// The member of an object that has this name.
    Member(Box<Term>, Box<Term>),
    /// What a function of this name gives with what is on the stack below.
    Result(Box<Term>, Seq<Term>),
    /// What a method of an object gives with what is on the stack below.
    Answer(Box<Term>, Box<Term>, Seq<Term>),
}

/// What is done besides changing the stack.
pub enum Deed {
    SetVariable { name: Term, value: Term },
    SetMember { object: Term, name: Term, value: Term },
    Call { name: Term, below: Seq<Term> },
    CallMethod { object: Term, name: Term, below: Seq<Term> },
}

/// A player: its stack, the top last, and what was done so far.
#[verifier::ext_equal]
pub struct Player {
    pub stack: Seq<Term>,
    pub deeds: Seq<Deed>,
}

impl Player {
    /// The `k`-th value from the top.
    pub open spec fn top(self, k: int) -> Term {
        self.stack[self.stack.len() - 1 - k]
    }

    /// Without the `k` topmost values.
    pub open spec fn without(self, k: int) -> Player {
        Player { stack: self.stack.take(self.stack.len() - k), ..self }
    }

    pub open spec fn push(self, t: Term) -> Player {
        Player { stack: self.stack.push(t), ..self }
    }

    pub open spec fn did(self, d: Deed) -> Player {
        Player { deeds: self.deeds.push(d), ..self }
    }

    pub open spec fn get_variable(self) -> Player {
        self.without(1).push(Term::Variable(Box::new(self.top(0))))
    }

    pub open spec fn get_member(self) -> Player {
        self.without(2).push(Term::Member(Box::new(self.top(1)), Box::new(self.top(0))))
    }

    pub open spec fn set_variable(self) -> Player {
        self.without(2).did(Deed::SetVariable { name: self.top(1), value: self.top(0) })
    }

    pub open spec fn set_member(self) -> Player {
        self.without(3).did(
            Deed::SetMember { object: self.top(2), name: self.top(1), value: self.top(0) },
        )
    }

    /// Arguments, and how many there are, stand below the name of the function. What
    /// they are is for the player to find out.
    pub open spec fn call(self) -> Player {
        let below = self.without(1).stack;
        Player {
            stack: seq![Term::Result(Box::new(self.top(0)), below)],
            deeds: self.deeds.push(Deed::Call { name: self.top(0), below }),
        }
    }

    pub open spec fn call_method(self) -> Player {
        let below = self.without(2).stack;
        Player {
            stack: seq![
                Term::Answer(Box::new(self.top(1)), Box::new(self.top(0)), below),
            ],
            deeds: self.deeds.push(
                Deed::CallMethod { object: self.top(1), name: self.top(0), below },
            ),
        }
    }
}

/// The value that the payload of a push of one value spells: its kind, and the value.
pub open spec fn operand(p: Seq<u8>) -> Option<Term> {
    let n = p.len();
    if n == 0 {
        None
    } else if p[0] == 0 && n >= 2 && p[n - 1] == 0 {
        Some(Term::Text(latin1(p.subrange(1, n - 1))))
    } else if p[0] == 1 && n == 5 {
        Some(Term::Float(word(p, 1)))
    } else if p[0] == 2 && n == 1 {
        Some(Term::Null)
    } else if p[0] == 3 && n == 1 {
        Some(Term::Undefined)
    } else if p[0] == 4 && n == 2 {
        Some(Term::Register(p[1] as int))
    } else if p[0] == 5 && n == 2 {
        Some(Term::Truth(p[1] != 0))
    } else if p[0] == 7 && n == 5 {
        Some(Term::Number((word(p, 1) as i32) as int))
    } else if p[0] == 8 && n == 2 {
        Some(Term::Constant(p[1] as int))
    } else if p[0] == 9 && n == 3 {
        Some(Term::Constant(half(p, 1) as int))
    } else {
        None
    }
}

/// What the standard action with this opcode does; nothing is said of others.
pub open spec fn act(o: u8, payload: Seq<u8>, s: Player) -> Option<Player> {
    if o == 0x96 {
        match operand(payload) {
            Some(t) => Some(s.push(t)),
            None => None,
        }
    } else if o == 0x17 {
        Some(s.without(1))
    } else if o == 0x1C {
        Some(s.get_variable())
    } else if o == 0x1D {
        Some(s.set_variable())
    } else if o == 0x4E {
        Some(s.get_member())
    } else if o == 0x4F {
        Some(s.set_member())
    } else if o == 0x3D {
        Some(s.call())
    } else if o == 0x52 {
        Some(s.call_method())
    } else {
        None
    }
}

/// What the first `n` actions do.
pub open spec fn run(v: Seq<Low>, s: Player, n: nat) -> Option<Player>
    decreases n,
{
    if n == 0 {
        Some(s)
    } else {
        match run(v, s, (n - 1) as nat) {
            Some(t) => match v[n - 1] {
                Low::Op(o, p) => act(o, p, t),
                _ => None,
            },
            None => None,
        }
    }
}

/// What a shorthand does, by its opcode; nothing is said of other opcodes.
pub open spec fn shorthand(o: u8, s: Player) -> Option<Player> {
    if o == 0x56 {
        Some(s.push(Term::Text("this"@)))
    } else if o == 0x58 {
        Some(s.push(Term::Text("_global"@)))
    } else if o == 0x59 {
        Some(s.push(Term::Number(0)))
    } else if o == 0x5A {
        Some(s.push(Term::Number(1)))
    } else if o == 0x5B {
        Some(s.call().without(1))
    } else if o == 0x5C {
        Some(s.call().set_variable())
    } else if o == 0x5D {
        Some(s.call_method().without(1))
    } else if o == 0x5E {
        Some(s.call_method().set_variable())
    } else if o == 0x70 {
        Some(s.push(Term::Variable(Box::new(Term::Text("this"@)))))
    } else if o == 0x71 {
        Some(s.push(Term::Variable(Box::new(Term::Text("_global"@)))))
    } else if o == 0x72 {
        Some(s.without(1).did(Deed::SetVariable { name: s.top(0), value: Term::Number(0) }))
    } else if o == 0x73 {
        Some(s.push(Term::Truth(true)))
    } else if o == 0x74 {
        Some(s.push(Term::Truth(false)))
    } else if o == 0x75 {
        Some(s.push(Term::Null))
    } else if o == 0x76 {
        Some(s.push(Term::Undefined))
    } else {
        None
    }
}

/// What an instruction that pushes does, and what it does with what it pushed.
pub open spec fn effect(insn: Instruction, s: Player) -> Option<Player> {
    match insn {
        Instruction::Simple(o) => shorthand(o, s),
        Instruction::PushFloat(v) => Some(s.push(Term::Float(v))),
        Instruction::PushByte(v) => Some(s.push(Term::Number(v as int))),
        Instruction::PushWord(v) => Some(s.push(Term::Number(v as int))),
        Instruction::PushDWord(v) => Some(s.push(Term::Number((v as i32) as int))),
        Instruction::PushRegister(v) => Some(s.push(Term::Register(v as int))),
        Instruction::PushString { kind, value } => {
            let t = Term::Text(value);
            match kind {
                PushStringKind::Push => Some(s.push(t)),
                // The variable of that name.
                PushStringKind::GetVar => Some(s.push(Term::Variable(Box::new(t)))),
                // The member of that name of the object on top.
                PushStringKind::GetMember => Some(
                    s.without(1).push(Term::Member(Box::new(s.top(0)), Box::new(t))),
                ),
                // The text is what the variable, whose name is on top, is set to.
                PushStringKind::SetVar => Some(
                    s.without(1).did(Deed::SetVariable { name: s.top(0), value: t }),
                ),
                PushStringKind::SetMember => Some(
                    s.without(2).did(
                        Deed::SetMember { object: s.top(1), name: s.top(0), value: t },
                    ),
                ),
            }
        },
        Instruction::DictRef { kind, index } => {
            let t = Term::Constant(index as int);
            match kind {
                DictRefKind::PushByte => Some(s.push(t)),
                DictRefKind::PushWord => Some(s.push(t)),
                DictRefKind::ByteGetVar => Some(s.push(Term::Variable(Box::new(t)))),
                DictRefKind::ByteGetMember => Some(
                    s.without(1).push(Term::Member(Box::new(s.top(0)), Box::new(t))),
                ),
                DictRefKind::CallFuncPop => Some(
                    Player { stack: Seq::empty(), ..s }.did(
                        Deed::Call { name: t, below: s.stack },
                    ),
                ),
                DictRefKind::CallFuncSetVar => Some(s.push(t).call().set_variable()),
                DictRefKind::CallMethodPop => Some(
                    Player { stack: Seq::empty(), ..s }.did(
                        Deed::CallMethod {
                            object: s.top(0),
                            name: t,
                            below: s.without(1).stack,
                        },
                    ),
                ),
                DictRefKind::CallMethodSetVar => Some(s.push(t).call_method().set_variable()),
            }
        },
        _ => None,
    }
}

proof fn lemma_le2(p: Seq<u8>, at: int, v: nat)
    requires
        0 <= at,
        at + 2 <= p.len(),
        v < 0x1_0000,
        p.subrange(at, at + 2) == bytes::le(v, 2),
    ensures
        half(p, at) == v,
{
    bytes::lemma_capacity();
    assert forall|i: int| 0 <= i < 2 implies #[trigger] p[at + i] == bytes::le(v, 2)[i] by {
        assert(p.subrange(at, at + 2)[i] == p[at + i]);
    }
    bytes::lemma_un_le_of_le(p, at, v, 2);
    crate::apt::file_format::lemma_half(p, at);
}

proof fn lemma_le4(p: Seq<u8>, at: int, v: nat)
    requires
        0 <= at,
        at + 4 <= p.len(),
        v < 0x1_0000_0000,
        p.subrange(at, at + 4) == bytes::le(v, 4),
    ensures
        word(p, at) == v,
{
    bytes::lemma_capacity();
    assert forall|i: int| 0 <= i < 4 implies #[trigger] p[at + i] == bytes::le(v, 4)[i] by {
        assert(p.subrange(at, at + 4)[i] == p[at + i]);
    }
    bytes::lemma_un_le_of_le(p, at, v, 4);
    crate::apt::file_format::lemma_word(p, at);
}

/// The value that stands on the stack once `v` was pushed.
pub open spec fn term(v: Value) -> Term {
    match v {
        Value::String(s) => Term::Text(s),
        Value::Float(f) => Term::Float(f),
        Value::Undefined => Term::Undefined,
        Value::Register(r) => Term::Register(r as int),
        Value::Boolean(b) => Term::Truth(b),
        Value::Integer(i) => Term::Number(i as int),
        Value::Lookup(i) => Term::Constant(i as int),
    }
}

/// Pushing a value puts it on the stack.
pub proof fn law_pushed(v: Value)
    requires
        v matches Value::String(s) ==> crate::apt::reader::is_latin1(s),
        v matches Value::Register(r) ==> 0 <= r <= 0xFF,
        v matches Value::Lookup(i) ==> i <= 0xFFFF,
    ensures
        operand(avm1::pushed(v)) == Some(term(v)),
{
    let p = avm1::pushed(v);
    match v {
        Value::String(s) => {
            let n = p.len() as int;
            assert(p.subrange(1, n - 1) =~= crate::apt::reader::to_latin1(s));
            crate::apt::reader::law_latin1_roundtrip(s);
        },
        Value::Float(f) => {
            bytes::lemma_le_len(f as nat, 4);
            assert(p.subrange(1, 5) =~= bytes::le(f as nat, 4));
            lemma_le4(p, 1, f as nat);
        },
        Value::Integer(i) => {
            bytes::lemma_le_len((i as u32) as nat, 4);
            assert(p.subrange(1, 5) =~= bytes::le((i as u32) as nat, 4));
            lemma_le4(p, 1, (i as u32) as nat);
            let w = i as u32;
            assert(w as i32 == i) by (bit_vector)
                requires
                    w == i as u32,
            ;
        },
        Value::Lookup(i) => {
            lemma_constant(i as nat);
        },
        _ => {},
    }
}

proof fn lemma_constant(i: nat)
    requires
        i <= 0xFFFF,
    ensures
        operand(avm1::constant_ref(i)) == Some(Term::Constant(i as int)),
{
    let p = avm1::constant_ref(i);
    if i > 0xFF {
        bytes::lemma_le_len(i, 2);
        assert(p.subrange(1, 3) =~= bytes::le(i, 2));
        lemma_le2(p, 1, i);
    }
}

/// One action.
proof fn lemma_run1(v: Seq<Low>, s: Player)
    requires
        v.len() == 1,
        v[0] is Op,
    ensures
        run(v, s, 1) == act(v[0]->Op_0, v[0]->Op_1, s),
{
    reveal_with_fuel(run, 2);
}

/// Two actions.
proof fn lemma_run2(v: Seq<Low>, s: Player)
    requires
        v.len() == 2,
        v[0] is Op,
        v[1] is Op,
    ensures
        run(v, s, 2) == match act(v[0]->Op_0, v[0]->Op_1, s) {
            Some(t) => act(v[1]->Op_0, v[1]->Op_1, t),
            None => None,
        },
{
    reveal_with_fuel(run, 3);
}

/// Three actions.
proof fn lemma_run3(v: Seq<Low>, s: Player)
    requires
        v.len() == 3,
        v[0] is Op,
        v[1] is Op,
        v[2] is Op,
    ensures
        run(v, s, 3) == match run(v.take(2), s, 2) {
            Some(t) => act(v[2]->Op_0, v[2]->Op_1, t),
            None => None,
        },
{
    reveal_with_fuel(run, 4);
    assert(v.take(2)[0] == v[0] && v.take(2)[1] == v[1]);
}

/// What is pushed is on top, and what was there is below.
proof fn lemma_push(s: Player, t: Term)
    requires
        s.stack.len() >= 2,
    ensures
        s.push(t).top(0) == t,
        s.push(t).top(1) == s.top(0),
        s.push(t).top(2) == s.top(1),
        s.push(t).without(1) == s,
        s.push(t).without(2) == s.without(1),
        s.push(t).without(3) == s.without(2),
        seq![t].take(0) == Seq::<Term>::empty(),
{
    assert(s.push(t).without(1).stack =~= s.stack);
    assert(s.push(t).without(2).stack =~= s.without(1).stack);
    assert(s.push(t).without(3).stack =~= s.without(2).stack);
    assert(seq![t].take(0) =~= Seq::<Term>::empty());
}

proof fn lemma_calls(s: Player)
    ensures
        s.call().without(1) == (Player {
            stack: Seq::empty(),
            deeds: s.deeds.push(Deed::Call { name: s.top(0), below: s.without(1).stack }),
        }),
        s.call_method().without(1) == (Player {
            stack: Seq::empty(),
            deeds: s.deeds.push(
                Deed::CallMethod {
                    object: s.top(1),
                    name: s.top(0),
                    below: s.without(2).stack,
                },
            ),
        }),
{
    assert(s.call().without(1).stack =~= Seq::<Term>::empty());
    assert(s.call_method().without(1).stack =~= Seq::<Term>::empty());
}

proof fn lemma_simple(o: u8, s: Player)
    requires
        s.stack.len() >= 2,
        shorthand(o, s) is Some,
    ensures
        run(avm1::lower_simple(o), s, avm1::lower_simple(o).len()) == shorthand(o, s),
{
    let v = avm1::lower_simple(o);
    reveal_strlit("this");
    reveal_strlit("_global");
    law_pushed(Value::String("this"@));
    law_pushed(Value::String("_global"@));
    law_pushed(Value::Integer(0));
    law_pushed(Value::Integer(1));
    law_pushed(Value::Boolean(true));
    law_pushed(Value::Boolean(false));
    lemma_push(s, Term::Text("this"@));
    lemma_push(s, Term::Text("_global"@));
    lemma_push(s, Term::Number(0));
    if v.len() == 1 {
        lemma_run1(v, s);
    } else {
        lemma_run2(v, s);
    }
}

/// A shorthand does what the standard actions do that it becomes: it pushes the same
/// values, reads the same variables and members, and calls and sets the same things.
pub proof fn law_shorthand(insn: Instruction, texts: Texts, s: Player)
    requires
        s.stack.len() >= 2,
        effect(insn, s) is Some,
        insn matches Instruction::PushString { value, .. } ==> crate::apt::reader::is_latin1(value),
    ensures
        run(avm1::lower(insn, texts), s, avm1::lower(insn, texts).len()) == effect(insn, s),
{
    reveal(avm1::lower);
    let v = avm1::lower(insn, texts);
    match insn {
        Instruction::Simple(o) => {
            lemma_simple(o, s);
        },
        Instruction::PushFloat(x) => {
            law_pushed(Value::Float(x));
            lemma_run1(v, s);
        },
        Instruction::PushByte(x) => {
            law_pushed(Value::Integer(x as i32));
            lemma_run1(v, s);
        },
        Instruction::PushWord(x) => {
            law_pushed(Value::Integer(x as i32));
            lemma_run1(v, s);
        },
        Instruction::PushDWord(x) => {
            law_pushed(Value::Integer(x as i32));
            lemma_run1(v, s);
        },
        Instruction::PushRegister(x) => {
            law_pushed(Value::Register(x as i32));
            lemma_run1(v, s);
        },
        Instruction::PushString { kind, value } => {
            law_pushed(Value::String(value));
            lemma_push(s, Term::Text(value));
            if v.len() == 1 {
                lemma_run1(v, s);
            } else {
                lemma_run2(v, s);
            }
        },
        Instruction::DictRef { kind, index } => {
            let t = Term::Constant(index as int);
            lemma_constant(index as nat);
            lemma_push(s, t);
            lemma_calls(s.push(t));
            if v.len() == 1 {
                lemma_run1(v, s);
            } else if v.len() == 2 {
                lemma_run2(v, s);
            } else {
                lemma_run3(v, s);
                lemma_run2(v.take(2), s);
            }
        },
        _ => {},
    }
}

} // verus!
