//! Short streams of common instructions come back from bytecode as they were.
use super::avm1::{self, Texts};
use super::bridge::{self, clean_all, plain, plain_at, plain_value};
use super::{reading, ReadFault};
use crate::apt::model::Instruction;
use crate::apt::readback::clean;
use vstd::prelude::*;

verus! {

/// A common instruction of a stream of `len` instructions, with operands that bytecode
/// has room for.
pub open spec fn common(insn: Instruction, len: nat) -> bool
    decreases insn, 0nat,
{
    match insn {
        Instruction::End => true,
        Instruction::Simple(o) => 0 < o < 0x80 && !avm1::ea_shorthand(o),
        Instruction::GotoFrame(f) => 0 <= f <= 0xFFFF,
        Instruction::GetUrl { url, target } => clean(url) && clean(target),
        Instruction::StoreRegister(r) => 0 <= r <= 0xFF,
        Instruction::SetTarget(t) => clean(t),
        Instruction::GotoLabel(l) => clean(l),
        Instruction::GotoFrame2 { .. } => true,
        Instruction::Push(v) => forall|i: int| 0 <= i < v.len() ==> plain_value(#[trigger] v[i]),
        Instruction::DefineFunction { name, params, body } => {
            clean(name) && clean_all(params) && all_common(body)
        },
        Instruction::BranchAlways { target } => target <= len,
        Instruction::BranchIfTrue { target } => target <= len,
        _ => false,
    }
}

/// A stream of common instructions.
pub open spec fn all_common(s: Seq<Instruction>) -> bool
    decreases s, 1nat,
{
    forall|k: int| 0 <= k < s.len() ==> common(#[trigger] s[k], s.len())
}

proof fn lemma_sizes(s: Seq<Instruction>, texts: Texts, a: nat, b: nat)
    requires
        a <= b <= s.len(),
    ensures
        avm1::stream_size(s, texts, a) <= avm1::stream_size(s, texts, b),
    decreases b,
{
    if a < b {
        lemma_sizes(s, texts, a, (b - 1) as nat);
    }
}

proof fn lemma_names(v: Seq<Seq<char>>, n: nat)
    requires
        n <= v.len(),
    ensures
        n <= avm1::param_names(v, n).len(),
    decreases n,
{
    if n > 0 {
        lemma_names(v, (n - 1) as nat);
    }
}

proof fn lemma_common_at(insn: Instruction, texts: Texts, at: Seq<nat>, k: int)
    requires
        at.len() > 0,
        common(insn, (at.len() - 1) as nat),
        0 <= k < at.len() - 1,
        at[k + 1] == at[k] + avm1::insn_size(insn, texts),
        forall|i: int| 0 <= i < at.len() ==> #[trigger] at[i] <= 0x7FFF,
    ensures
        plain_at(insn, texts, at, k),
    decreases insn, 0nat,
{
    reveal(avm1::lower);
    reveal_with_fuel(avm1::lows_size, 2);
    let lows = avm1::lower(insn, texts);
    assert(at[k + 1] <= 0x7FFF);
    assert(avm1::insn_size(insn, texts) <= 0x7FFF);
    match insn {
        Instruction::DefineFunction { name, params, body } => {
            let inner = avm1::stream_size(body, texts, body.len());
            assert(lows.len() == 1);
            assert(avm1::insn_size(insn, texts) == avm1::low_size(lows[0], inner));
            lemma_names(params, params.len());
            avm1::law_code_size(body, texts, 0);
            lemma_all_common(body, texts);
        },
        Instruction::BranchAlways { target } => {
            assert(lows.len() == 1);
            assert(at[target as int] <= 0x7FFF);
        },
        Instruction::BranchIfTrue { target } => {
            assert(lows.len() == 1);
            assert(at[target as int] <= 0x7FFF);
        },
        _ => {
            if !(insn is Simple) {
                assert(lows.len() == 1);
                assert(avm1::insn_size(insn, texts) == avm1::low_size(lows[0], 0));
            }
        },
    }
}

proof fn lemma_all_common(s: Seq<Instruction>, texts: Texts)
    requires
        all_common(s),
        avm1::stream_size(s, texts, s.len()) <= 0x7FFF,
    ensures
        plain(s, texts),
    decreases s, 1nat,
{
    let at = avm1::starts(s, texts);
    assert forall|i: int| 0 <= i < at.len() implies #[trigger] at[i] <= 0x7FFF by {
        lemma_sizes(s, texts, i as nat, s.len());
    }
    assert forall|k: int| 0 <= k < s.len() implies plain_at(#[trigger] s[k], texts, at, k) by {
        assert(at[k + 1] == at[k] + avm1::insn_size(s[k], texts));
        lemma_common_at(s[k], texts, at, k);
    }
}

/// A stream of common instructions whose bytecode is at most as long as a branch
/// reaches comes back from it as it was.
pub proof fn law_common_roundtrip(s: Seq<Instruction>, texts: Texts)
    requires
        all_common(s),
        avm1::code(s, texts).len() <= 0x7FFF,
    ensures
        reading::block(avm1::code(s, texts)) == Ok::<Seq<Instruction>, ReadFault>(s),
{
    avm1::law_code_size(s, texts, 0);
    lemma_all_common(s, texts);
    bridge::law_bytecode_roundtrip(s, texts);
}

} // verus!
