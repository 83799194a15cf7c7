//! The numbers that a conversion needs the text of: constant pools hold texts alone.
use super::avm1::{self, Texts};
use super::{first_of, Trouble};
use crate::apt::actions::{ActionStream, Instruction};
use crate::apt::model;
use crate::apt::streams::{self, Labelled};
use crate::apt::types::{F32Bits, Movie, Value};
use vstd::prelude::*;

verus! {

/// The numbers among the first `n` entries of a constant pool.
pub open spec fn pool_floats(v: Seq<model::Value>, n: nat) -> Seq<F32Bits>
    decreases n,
{
    if n == 0 {
        Seq::empty()
    } else {
        let before = pool_floats(v, (n - 1) as nat);
        match v[n - 1] {
            model::Value::Float(f) => before.push(f),
            _ => before,
        }
    }
}

/// The numbers in the constant pools of an instruction and the functions in it.
pub open spec fn insn_floats(i: model::Instruction) -> Seq<F32Bits>
    decreases i, 0int,
{
    match i {
        model::Instruction::DefineDictionary(v) => pool_floats(v, v.len()),
        model::Instruction::DefineFunction { body, .. } => code_floats(body, body.len()),
        model::Instruction::DefineFunction2 { body, .. } => code_floats(body, body.len()),
        _ => Seq::empty(),
    }
}

/// The numbers in the constant pools of the first `n` instructions.
pub open spec fn code_floats(s: Seq<model::Instruction>, n: nat) -> Seq<F32Bits>
    decreases s, n,
{
    if n == 0 || n > s.len() {
        Seq::empty()
    } else {
        code_floats(s, (n - 1) as nat) + insn_floats(s[n - 1])
    }
}

/// The numbers in the constant pools of the first `n` streams.
pub open spec fn all_floats(v: Seq<Labelled>, n: nat) -> Seq<F32Bits>
    decreases n,
{
    if n == 0 {
        Seq::empty()
    } else {
        all_floats(v, (n - 1) as nat) + code_floats(v[n - 1].code, v[n - 1].code.len())
    }
}

fn push_pool(out: &mut Vec<F32Bits>, v: &Vec<Value>)
    ensures
        final(out)@ == old(out)@ + pool_floats(model::views(v@), v@.len()),
{
    let ghost m = model::views(v@);
    let ghost before = out@;
    let mut i: usize = 0;
    assert(before + pool_floats(m, 0) =~= before);
    while i < v.len()
        invariant
            m == model::views(v@),
            i <= v@.len(),
            out@ == before + pool_floats(m, i as nat),
        decreases v@.len() - i,
    {
        assert(m[i as int] == v@[i as int]@);
        if let Value::Float(f) = &v[i] {
            out.push(*f);
        }
        i = i + 1;
        assert(out@ =~= before + pool_floats(m, i as nat));
    }
}

fn push_insn(out: &mut Vec<F32Bits>, i: &Instruction)
    ensures
        final(out)@ == old(out)@ + insn_floats(i@),
    decreases i, 0int,
{
    match i {
        Instruction::DefineDictionary(v) => push_pool(out, v),
        Instruction::DefineFunction { body, .. } => push_stream(out, body),
        Instruction::DefineFunction2 { body, .. } => push_stream(out, body),
        _ => {
            assert(out@ + insn_floats(i@) =~= out@);
        },
    }
}

fn push_stream(out: &mut Vec<F32Bits>, s: &ActionStream)
    ensures
        final(out)@ == old(out)@ + code_floats(s@, s@.len()),
    decreases s, 0int,
{
    let ghost before = out@;
    let mut i: usize = 0;
    assert(before + code_floats(s@, 0) =~= before);
    while i < s.instructions.len()
        invariant
            i <= s.instructions@.len(),
            out@ == before + code_floats(s@, i as nat),
        decreases s.instructions@.len() - i,
    {
        assert(decreases_to!(s => s.instructions));
        assert(decreases_to!(s.instructions => s.instructions@));
        assert(s@[i as int] == s.instructions@[i as int]@);
        push_insn(out, &s.instructions[i]);
        i = i + 1;
        assert(out@ =~= before + code_floats(s@, i as nat));
    }
}

/// The numbers in the constant pools of an action stream, which its conversion needs
/// the text of.
pub fn stream_floats(stream: &ActionStream) -> (out: Vec<F32Bits>)
    ensures
        out@ == code_floats(stream@, stream@.len()),
{
    let mut out: Vec<F32Bits> = Vec::new();
    push_stream(&mut out, stream);
    assert(out@ =~= code_floats(stream@, stream@.len()));
    out
}

/// The numbers in the constant pools of a movie, which its conversion needs the text
/// of.
pub fn movie_floats(movie: &Movie) -> (out: Vec<F32Bits>)
    ensures
        ({
            let v = streams::movie_streams(movie@);
            out@ == all_floats(v, v.len())
        }),
{
    let list = streams::all_streams(movie);
    let ghost v = model::views(list@);
    let mut out: Vec<F32Bits> = Vec::new();
    let mut i: usize = 0;
    while i < list.len()
        invariant
            v == model::views(list@),
            i <= list@.len(),
            out@ == all_floats(v, i as nat),
        decreases list@.len() - i,
    {
        assert(v[i as int] == list@[i as int]@);
        push_stream(&mut out, list[i].stream);
        i = i + 1;
    }
    out
}

/// Whether every one of these numbers has a text.
pub open spec fn have_texts(v: Seq<F32Bits>, texts: Texts) -> bool {
    forall|i: int| 0 <= i < v.len() ==> avm1::float_text(texts, #[trigger] v[i]) is Some
}

proof fn lemma_pool(v: Seq<model::Value>, texts: Texts, n: nat)
    requires
        n <= v.len(),
        have_texts(pool_floats(v, n), texts),
    ensures
        !(avm1::pool_err(v, texts, n) matches Some(Trouble::NoFloatText(_))),
    decreases n,
{
    if n > 0 {
        let all = pool_floats(v, n);
        let before = pool_floats(v, (n - 1) as nat);
        assert forall|i: int| 0 <= i < before.len() implies avm1::float_text(
            texts,
            #[trigger] before[i],
        ) is Some by {
            assert(all[i] == before[i]);
        }
        lemma_pool(v, texts, (n - 1) as nat);
        if v[n - 1] is Float {
            assert(all[all.len() - 1] == v[n - 1]->Float_0);
        }
    }
}

proof fn lemma_texts(v: Seq<model::Value>, n: nat)
    ensures
        !(avm1::pushes_err(v, n) matches Some(Trouble::NoFloatText(_))),
    decreases n,
{
    if n > 0 {
        lemma_texts(v, (n - 1) as nat);
    }
}

proof fn lemma_names(v: Seq<Seq<char>>, n: nat)
    ensures
        !(avm1::names_err(v, n) matches Some(Trouble::NoFloatText(_))),
    decreases n,
{
    if n > 0 {
        lemma_names(v, (n - 1) as nat);
    }
}

proof fn lemma_params(v: Seq<(u32, Seq<char>)>, n: nat)
    ensures
        !(avm1::reg_params_err(v, n) matches Some(Trouble::NoFloatText(_))),
    decreases n,
{
    if n > 0 {
        lemma_params(v, (n - 1) as nat);
    }
}

proof fn lemma_lower(i: model::Instruction, texts: Texts)
    requires
        have_texts(insn_floats(i), texts),
    ensures
        !(avm1::lower_err(i, texts) matches Some(Trouble::NoFloatText(_))),
{
    reveal(avm1::lower_err);
    match i {
        model::Instruction::Push(v) => lemma_texts(v, v.len()),
        model::Instruction::DefineDictionary(v) => lemma_pool(v, texts, v.len()),
        model::Instruction::DefineFunction { params, .. } => lemma_names(params, params.len()),
        model::Instruction::DefineFunction2 { params, .. } => lemma_params(params, params.len()),
        _ => {},
    }
}

proof fn lemma_prefix(s: Seq<model::Instruction>, texts: Texts, n: nat)
    requires
        0 < n <= s.len(),
        have_texts(code_floats(s, n), texts),
    ensures
        have_texts(code_floats(s, (n - 1) as nat), texts),
        have_texts(insn_floats(s[n - 1]), texts),
{
    let all = code_floats(s, n);
    let a = code_floats(s, (n - 1) as nat);
    let b = insn_floats(s[n - 1]);
    assert forall|i: int| 0 <= i < a.len() implies avm1::float_text(texts, #[trigger] a[i]) is Some by {
        assert(all[i] == a[i]);
    }
    assert forall|i: int| 0 <= i < b.len() implies avm1::float_text(texts, #[trigger] b[i]) is Some by {
        assert(all[a.len() + i] == b[i]);
    }
}

proof fn lemma_lowers(s: Seq<model::Instruction>, texts: Texts, n: nat)
    requires
        n <= s.len(),
        have_texts(code_floats(s, n), texts),
    ensures
        !(avm1::lowers_err(s, texts, n) matches Some(Trouble::NoFloatText(_))),
    decreases n,
{
    if n > 0 {
        lemma_prefix(s, texts, n);
        lemma_lowers(s, texts, (n - 1) as nat);
        lemma_lower(s[n - 1], texts);
    }
}

proof fn lemma_branches(s: Seq<model::Instruction>, n: nat)
    ensures
        !(avm1::branches_err(s, n) matches Some(Trouble::NoFloatText(_))),
    decreases n,
{
    if n > 0 {
        lemma_branches(s, (n - 1) as nat);
    }
}

proof fn lemma_bodies(s: Seq<model::Instruction>, texts: Texts, n: nat)
    requires
        n <= s.len(),
        have_texts(code_floats(s, n), texts),
    ensures
        !(avm1::bodies_err(s, texts, n) matches Some(Trouble::NoFloatText(_))),
    decreases s, n,
{
    if n > 0 {
        lemma_prefix(s, texts, n);
        lemma_bodies(s, texts, (n - 1) as nat);
        let e = avm1::body_err(s[n - 1], texts);
        assert(avm1::bodies_err(s, texts, n) == first_of(
            avm1::bodies_err(s, texts, (n - 1) as nat),
            e,
        ));
        match s[n - 1] {
            model::Instruction::DefineFunction { body, .. } => {
                assert(decreases_to!(s => s[n - 1]));
                law_float_texts(body, texts);
                assert(e == avm1::stream_err(body, texts));
            },
            model::Instruction::DefineFunction2 { body, .. } => {
                assert(decreases_to!(s => s[n - 1]));
                law_float_texts(body, texts);
                assert(e == avm1::stream_err(body, texts));
            },
            _ => {},
        }
    }
}

/// With a text for every number that is listed, a stream does not fail for want of
/// one.
pub proof fn law_float_texts(s: Seq<model::Instruction>, texts: Texts)
    requires
        have_texts(code_floats(s, s.len()), texts),
    ensures
        !(avm1::stream_err(s, texts) matches Some(Trouble::NoFloatText(_))),
    decreases s, s.len() + 1,
{
    lemma_lowers(s, texts, s.len());
    lemma_bodies(s, texts, s.len());
    lemma_branches(s, s.len());
}

} // verus!
