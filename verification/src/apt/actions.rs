//! APT ActionScript bytecode: decoding and encoding of action streams.
use super::bytes;
use super::decode::{self, Ctx, Fix};
use super::encode;
use super::error::Error;
use super::io::{numbers, Cursor, Patch};
use super::layout;
use super::model;
use super::opcode;
use super::out;
use super::reader::{self, Rd};
use super::sink::Sink;
use super::types::{F32Bits, PtrSize, Value, FUNC_POOL_ARRAY_MAGIC, FUNC_POOL_ITEMS_MAGIC};
use vstd::prelude::*;

verus! {

/// A decoded action stream. The terminating `End` is stored explicitly (as are
/// any `End`s inside function bodies), so encoding is verbatim.
#[derive(Debug, PartialEq)]
pub struct ActionStream {
    pub instructions: Vec<Instruction>,
}

impl View for ActionStream {
    type V = Seq<model::Instruction>;

    open spec fn view(&self) -> Seq<model::Instruction>
        decreases self,
    {
        Seq::new(
            self.instructions@.len(),
            |i: int|
                if 0 <= i < self.instructions@.len() {
                    self.instructions@[i].view()
                } else {
                    arbitrary()
                },
        )
    }
}

impl Default for ActionStream {
    fn default() -> (s: ActionStream)
        ensures
            s@ == Seq::<model::Instruction>::empty(),
    {
        let s = ActionStream { instructions: Vec::new() };
        assert(s@ =~= Seq::<model::Instruction>::empty());
        s
    }
}

/// Where a caught exception goes for `Try`.
#[derive(Debug, Clone, PartialEq, Eq)]
pub enum CatchVar {
    Register(u8),
    Variable(String),
}

impl View for CatchVar {
    type V = model::CatchVar;

    open spec fn view(&self) -> model::CatchVar {
        match self {
            CatchVar::Register(r) => model::CatchVar::Register(*r),
            CatchVar::Variable(s) => model::CatchVar::Variable(s@),
        }
    }
}

/// Branch/`With`/`Try` extents are expressed in *instruction indices* into the
/// enclosing stream (an index equal to `instructions.len()` means "past the
/// end"); byte deltas are recomputed on encode, which is what makes streams
/// portable across pointer sizes.
#[derive(Debug, PartialEq)]
pub enum Instruction {
    End,
    /// Any opcode without payload (standard SWF ops and EA shorthands).
    Simple(u8),
    GotoFrame(i32),
    GetUrl { url: String, target: String },
    StoreRegister(i32),
    SetTarget(String),
    GotoLabel(String),
    GotoFrame2 { play: bool },
    Push(Vec<Value>),
    /// Same payload as `Push`; establishes the active constant dictionary.
    DefineDictionary(Vec<Value>),
    DefineFunction { name: String, params: Vec<String>, body: ActionStream },
    DefineFunction2 {
        name: String,
        /// (register, name) per parameter.
        params: Vec<(u32, String)>,
        register_count: i16,
        /// `AptDefinefunction2FlagsType` bits (preloadThis, suppressThis, ...).
        flags: i16,
        body: ActionStream,
    },
    Try {
        /// Instruction counts of the three blocks following this instruction.
        try_count: usize,
        catch_count: usize,
        finally_count: usize,
        has_catch: bool,
        has_finally: bool,
        catch_var: Option<CatchVar>,
    },
    With {
        /// Index of the first instruction past the with-block.
        end_target: usize,
    },
    BranchAlways { target: usize },
    BranchIfTrue { target: usize },
    BranchIfFalse { target: usize },
    /// EA 0x77: 4 opaque bytes.
    TraceStart(u32),
    /// EA 0xA1/0xA4-0xA7: push an inline string, optionally with a follow-up op.
    PushString { kind: PushStringKind, value: String },
    /// EA dictionary-index opcodes: reference the active constant pool.
    DictRef { kind: DictRefKind, index: u16 },
    PushFloat(F32Bits),
    PushByte(u8),
    PushWord(u16),
    PushDWord(u32),
    PushRegister(u8),
}

impl View for Instruction {
    type V = model::Instruction;

    open spec fn view(&self) -> model::Instruction
        decreases self,
    {
        match self {
            Instruction::End => model::Instruction::End,
            Instruction::Simple(op) => model::Instruction::Simple(*op),
            Instruction::GotoFrame(f) => model::Instruction::GotoFrame(*f),
            Instruction::GetUrl { url, target } => model::Instruction::GetUrl {
                url: url@,
                target: target@,
            },
            Instruction::StoreRegister(r) => model::Instruction::StoreRegister(*r),
            Instruction::SetTarget(s) => model::Instruction::SetTarget(s@),
            Instruction::GotoLabel(s) => model::Instruction::GotoLabel(s@),
            Instruction::GotoFrame2 { play } => model::Instruction::GotoFrame2 { play: *play },
            Instruction::Push(items) => model::Instruction::Push(model::views(items@)),
            Instruction::DefineDictionary(items) => model::Instruction::DefineDictionary(
                model::views(items@),
            ),
            Instruction::DefineFunction { name, params, body } => {
                model::Instruction::DefineFunction {
                    name: name@,
                    params: model::names(params@),
                    body: body.view(),
                }
            },
            Instruction::DefineFunction2 { name, params, register_count, flags, body } => {
                model::Instruction::DefineFunction2 {
                    name: name@,
                    params: model::reg_names(params@),
                    register_count: *register_count,
                    flags: *flags,
                    body: body.view(),
                }
            },
            Instruction::Try {
                try_count,
                catch_count,
                finally_count,
                has_catch,
                has_finally,
                catch_var,
            } => {
                model::Instruction::Try {
                    try_count: *try_count,
                    catch_count: *catch_count,
                    finally_count: *finally_count,
                    has_catch: *has_catch,
                    has_finally: *has_finally,
                    catch_var: match catch_var {
                        Some(v) => Some(v@),
                        None => None,
                    },
                }
            },
            Instruction::With { end_target } => model::Instruction::With {
                end_target: *end_target,
            },
            Instruction::BranchAlways { target } => model::Instruction::BranchAlways {
                target: *target,
            },
            Instruction::BranchIfTrue { target } => model::Instruction::BranchIfTrue {
                target: *target,
            },
            Instruction::BranchIfFalse { target } => model::Instruction::BranchIfFalse {
                target: *target,
            },
            Instruction::TraceStart(v) => model::Instruction::TraceStart(*v),
            Instruction::PushString { kind, value } => model::Instruction::PushString {
                kind: *kind,
                value: value@,
            },
            Instruction::DictRef { kind, index } => model::Instruction::DictRef {
                kind: *kind,
                index: *index,
            },
            Instruction::PushFloat(v) => model::Instruction::PushFloat(*v),
            Instruction::PushByte(v) => model::Instruction::PushByte(*v),
            Instruction::PushWord(v) => model::Instruction::PushWord(*v),
            Instruction::PushDWord(v) => model::Instruction::PushDWord(*v),
            Instruction::PushRegister(v) => model::Instruction::PushRegister(*v),
        }
    }
}

#[derive(Debug, Clone, Copy, PartialEq, Eq, Structural)]
pub enum PushStringKind {
    Push,  // 0xA1
    GetVar,  // 0xA4
    GetMember,  // 0xA5
    SetVar,  // 0xA6
    SetMember,  // 0xA7
}

#[derive(Debug, Clone, Copy, PartialEq, Eq, Structural)]
pub enum DictRefKind {
    PushByte,  // 0xA2 (1-byte index)
    PushWord,  // 0xA3 (2-byte index)
    ByteGetVar,  // 0xAE
    ByteGetMember,  // 0xAF
    CallFuncPop,  // 0xB0
    CallFuncSetVar,  // 0xB1
    CallMethodPop,  // 0xB2
    CallMethodSetVar,  // 0xB3
}

impl DictRefKind {
    /// The opcode of this kind of reference.
    pub open spec fn code(self) -> u8 {
        match self {
            DictRefKind::PushByte => 0xA2,
            DictRefKind::PushWord => 0xA3,
            DictRefKind::ByteGetVar => 0xAE,
            DictRefKind::ByteGetMember => 0xAF,
            DictRefKind::CallFuncPop => 0xB0,
            DictRefKind::CallFuncSetVar => 0xB1,
            DictRefKind::CallMethodPop => 0xB2,
            DictRefKind::CallMethodSetVar => 0xB3,
        }
    }

    pub fn opcode(self) -> (op: u8)
        ensures
            op == self.code(),
    {
        match self {
            DictRefKind::PushByte => 0xA2,
            DictRefKind::PushWord => 0xA3,
            DictRefKind::ByteGetVar => 0xAE,
            DictRefKind::ByteGetMember => 0xAF,
            DictRefKind::CallFuncPop => 0xB0,
            DictRefKind::CallFuncSetVar => 0xB1,
            DictRefKind::CallMethodPop => 0xB2,
            DictRefKind::CallMethodSetVar => 0xB3,
        }
    }

    pub fn is_word(self) -> (b: bool)
        ensures
            b == (self == DictRefKind::PushWord),
    {
        self == DictRefKind::PushWord
    }
}

impl PushStringKind {
    /// The opcode of this kind of push.
    pub open spec fn code(self) -> u8 {
        match self {
            PushStringKind::Push => 0xA1,
            PushStringKind::GetVar => 0xA4,
            PushStringKind::GetMember => 0xA5,
            PushStringKind::SetVar => 0xA6,
            PushStringKind::SetMember => 0xA7,
        }
    }

    pub fn opcode(self) -> (op: u8)
        ensures
            op == self.code(),
    {
        match self {
            PushStringKind::Push => 0xA1,
            PushStringKind::GetVar => 0xA4,
            PushStringKind::GetMember => 0xA5,
            PushStringKind::SetVar => 0xA6,
            PushStringKind::SetMember => 0xA7,
        }
    }
}

/// Is `op` a valid opcode that carries no payload?
pub fn is_simple(op: u8) -> (b: bool)
    ensures
        b == decode::simple(op),
{
    match op {
        opcode::NEXT_FRAME
        | opcode::PREV_FRAME
        | opcode::PLAY
        | opcode::STOP
        | opcode::TOGGLE_QUALITY
        | opcode::STOP_SOUNDS
        | opcode::ADD
        | opcode::SUBTRACT
        | opcode::MULTIPLY
        | opcode::DIVIDE
        | opcode::EQUALS
        | opcode::LESS_THAN
        | opcode::AND
        | opcode::OR
        | opcode::NOT
        | opcode::STRING_EQUALS
        | opcode::STRING_LENGTH
        | opcode::SUB_STRING
        | opcode::POP
        | opcode::TO_INTEGER
        | opcode::GET_VARIABLE
        | opcode::SET_VARIABLE
        | opcode::SET_TARGET2
        | opcode::STRING_ADD
        | opcode::GET_PROPERTY
        | opcode::SET_PROPERTY
        | opcode::CLONE_SPRITE
        | opcode::REMOVE_SPRITE
        | opcode::TRACE
        | opcode::START_DRAG
        | opcode::STOP_DRAG
        | opcode::STRING_LESS_THAN
        | opcode::THROW
        | opcode::CAST_OP
        | opcode::IMPLEMENTS_OP
        | opcode::RANDOM
        | opcode::MB_LENGTH
        | opcode::CHAR_TO_ASCII
        | opcode::ASCII_TO_CHAR
        | opcode::GET_TIMER
        | opcode::MB_SUB_STRING
        | opcode::MB_CHAR_TO_ASCII
        | opcode::MB_ASCII_TO_CHAR
        | opcode::DELETE
        | opcode::DELETE2
        | opcode::DEFINE_LOCAL
        | opcode::CALL_FUNCTION
        | opcode::RETURN
        | opcode::MODULO
        | opcode::NEW_OBJECT
        | opcode::DEFINE_LOCAL2
        | opcode::INIT_ARRAY
        | opcode::INIT_OBJECT
        | opcode::TYPE_OF
        | opcode::TARGET_PATH
        | opcode::ENUMERATE
        | opcode::ADD2
        | opcode::LESS_THAN2
        | opcode::EQUALS2
        | opcode::TO_NUMBER
        | opcode::TO_STRING
        | opcode::PUSH_DUPLICATE
        | opcode::STACK_SWAP
        | opcode::GET_MEMBER
        | opcode::SET_MEMBER
        | opcode::INCREMENT
        | opcode::DECREMENT
        | opcode::CALL_METHOD
        | opcode::NEW_METHOD
        | opcode::INSTANCE_OF
        | opcode::ENUMERATE2
        | opcode::EA_PUSH_THIS
        | opcode::EA_PUSH_GLOBAL
        | opcode::EA_PUSH_ZERO
        | opcode::EA_PUSH_ONE
        | opcode::EA_CALL_FUNC_POP
        | opcode::EA_CALL_FUNC_SET_VAR
        | opcode::EA_CALL_METHOD_POP
        | opcode::EA_CALL_METHOD_SET_VAR
        | opcode::BIT_AND
        | opcode::BIT_OR
        | opcode::BIT_XOR
        | opcode::BIT_LSHIFT
        | opcode::BIT_RSHIFT
        | opcode::BIT_URSHIFT
        | opcode::STRICT_EQUALS
        | opcode::GREATER
        | opcode::EXTENDS
        | opcode::EA_PUSH_THIS_VAR
        | opcode::EA_PUSH_GLOBAL_VAR
        | opcode::EA_PUSH_ZERO_SET_VAR
        | opcode::EA_PUSH_TRUE
        | opcode::EA_PUSH_FALSE
        | opcode::EA_PUSH_NULL
        | opcode::EA_PUSH_UNDEFINED
        | opcode::WAIT_FOR_FRAME
        | opcode::GET_URL2
        | opcode::CALL_FRAME
        | opcode::BREAKPOINT => true,
        _ => false,
    }
}

/// Human-readable opcode name (for disassembly / aptinfo).
pub fn opcode_name(op: u8) -> (name: &'static str)
    ensures
        name@ == opcode::mnemonic(op),
{
    match op {
        opcode::END => "End",
        opcode::NEXT_FRAME => "NextFrame",
        opcode::PREV_FRAME => "PrevFrame",
        opcode::PLAY => "Play",
        opcode::STOP => "Stop",
        opcode::TOGGLE_QUALITY => "ToggleQuality",
        opcode::STOP_SOUNDS => "StopSounds",
        opcode::ADD => "Add",
        opcode::SUBTRACT => "Subtract",
        opcode::MULTIPLY => "Multiply",
        opcode::DIVIDE => "Divide",
        opcode::EQUALS => "Equals",
        opcode::LESS_THAN => "LessThan",
        opcode::AND => "And",
        opcode::OR => "Or",
        opcode::NOT => "Not",
        opcode::STRING_EQUALS => "StringEquals",
        opcode::STRING_LENGTH => "StringLength",
        opcode::SUB_STRING => "SubString",
        opcode::POP => "Pop",
        opcode::TO_INTEGER => "ToInteger",
        opcode::GET_VARIABLE => "GetVariable",
        opcode::SET_VARIABLE => "SetVariable",
        opcode::SET_TARGET2 => "SetTarget2",
        opcode::STRING_ADD => "StringAdd",
        opcode::GET_PROPERTY => "GetProperty",
        opcode::SET_PROPERTY => "SetProperty",
        opcode::CLONE_SPRITE => "CloneSprite",
        opcode::REMOVE_SPRITE => "RemoveSprite",
        opcode::TRACE => "Trace",
        opcode::START_DRAG => "StartDragMovie",
        opcode::STOP_DRAG => "StopDragMovie",
        opcode::STRING_LESS_THAN => "StringLessThan",
        opcode::THROW => "Throw",
        opcode::CAST_OP => "CastOp",
        opcode::IMPLEMENTS_OP => "ImplementsOp",
        opcode::RANDOM => "Random",
        opcode::MB_LENGTH => "MBLength",
        opcode::CHAR_TO_ASCII => "CharToAscii",
        opcode::ASCII_TO_CHAR => "AsciiToChar",
        opcode::GET_TIMER => "GetTimer",
        opcode::MB_SUB_STRING => "MBSubString",
        opcode::MB_CHAR_TO_ASCII => "MBCharToAscii",
        opcode::MB_ASCII_TO_CHAR => "MBAsciiToChar",
        opcode::DELETE => "Delete",
        opcode::DELETE2 => "Delete2",
        opcode::DEFINE_LOCAL => "DefineLocal",
        opcode::CALL_FUNCTION => "CallFunction",
        opcode::RETURN => "Return",
        opcode::MODULO => "Modulo",
        opcode::NEW_OBJECT => "NewObject",
        opcode::DEFINE_LOCAL2 => "DefineLocal2",
        opcode::INIT_ARRAY => "InitArray",
        opcode::INIT_OBJECT => "InitObject",
        opcode::TYPE_OF => "TypeOf",
        opcode::TARGET_PATH => "TargetPath",
        opcode::ENUMERATE => "Enumerate",
        opcode::ADD2 => "Add2",
        opcode::LESS_THAN2 => "LessThan2",
        opcode::EQUALS2 => "Equals2",
        opcode::TO_NUMBER => "ToNumber",
        opcode::TO_STRING => "ToString",
        opcode::PUSH_DUPLICATE => "PushDuplicate",
        opcode::STACK_SWAP => "StackSwap",
        opcode::GET_MEMBER => "GetMember",
        opcode::SET_MEMBER => "SetMember",
        opcode::INCREMENT => "Increment",
        opcode::DECREMENT => "Decrement",
        opcode::CALL_METHOD => "CallMethod",
        opcode::NEW_METHOD => "NewMethod",
        opcode::INSTANCE_OF => "InstanceOf",
        opcode::ENUMERATE2 => "Enumerate2",
        opcode::EA_PUSH_THIS => "EA:PushThis",
        opcode::EA_PUSH_GLOBAL => "EA:PushGlobal",
        opcode::EA_PUSH_ZERO => "EA:Push0",
        opcode::EA_PUSH_ONE => "EA:Push1",
        opcode::EA_CALL_FUNC_POP => "EA:CallFuncAndPop",
        opcode::EA_CALL_FUNC_SET_VAR => "EA:CallFuncSetVar",
        opcode::EA_CALL_METHOD_POP => "EA:CallMethodPop",
        opcode::EA_CALL_METHOD_SET_VAR => "EA:CallMethodSetVar",
        opcode::BIT_AND => "BitAnd",
        opcode::BIT_OR => "BitOr",
        opcode::BIT_XOR => "BitXor",
        opcode::BIT_LSHIFT => "BitLShift",
        opcode::BIT_RSHIFT => "BitRShift",
        opcode::BIT_URSHIFT => "BitURShift",
        opcode::STRICT_EQUALS => "StrictEquals",
        opcode::GREATER => "Greater",
        opcode::EXTENDS => "Extends",
        opcode::EA_PUSH_THIS_VAR => "EA:PushThisVariable",
        opcode::EA_PUSH_GLOBAL_VAR => "EA:PushGlobalVariable",
        opcode::EA_PUSH_ZERO_SET_VAR => "EA:PushZeroSetVar",
        opcode::EA_PUSH_TRUE => "EA:PushTrue",
        opcode::EA_PUSH_FALSE => "EA:PushFalse",
        opcode::EA_PUSH_NULL => "EA:PushNull",
        opcode::EA_PUSH_UNDEFINED => "EA:PushUndefined",
        opcode::EA_TRACE_START => "EA:TraceStart",
        opcode::GOTO_FRAME => "GotoFrame",
        opcode::GET_URL => "GetUrl",
        opcode::STORE_REGISTER => "StoreRegister",
        opcode::DEFINE_DICTIONARY => "EA:DefineDictionary",
        opcode::WAIT_FOR_FRAME => "WaitForFrame",
        opcode::SET_TARGET => "SetTarget",
        opcode::GOTO_LABEL => "GotoLabel",
        opcode::DEFINE_FUNCTION2 => "DefineFunction2",
        opcode::TRY => "Try",
        opcode::WITH => "With",
        opcode::PUSH => "Push",
        opcode::BRANCH_ALWAYS => "BranchAlways",
        opcode::GET_URL2 => "GetUrl2",
        opcode::DEFINE_FUNCTION => "DefineFunction",
        opcode::BRANCH_IF_TRUE => "BranchIfTrue",
        opcode::CALL_FRAME => "CallFrame",
        opcode::GOTO_FRAME2 => "GotoFrame2",
        0xA1 => "EA:PushString",
        0xA2 => "EA:PushStringDictByte",
        0xA3 => "EA:PushStringDictWord",
        0xA4 => "EA:PushStringGetVar",
        0xA5 => "EA:PushStringGetMember",
        0xA6 => "EA:PushStringSetVar",
        0xA7 => "EA:PushStringSetMember",
        0xAE => "EA:StringDictByteGetVar",
        0xAF => "EA:StringDictByteGetMember",
        0xB0 => "EA:DictCallFuncPop",
        0xB1 => "EA:DictCallFuncSetVar",
        0xB2 => "EA:DictCallMethodPop",
        0xB3 => "EA:DictCallMethodSetVar",
        0xB4 => "EA:PushFloat",
        0xB5 => "EA:PushByte",
        0xB6 => "EA:PushWord",
        0xB7 => "EA:PushDWord",
        opcode::EA_BRANCH_IF_FALSE => "EA:BranchIfFalse",
        opcode::EA_PUSH_REGISTER => "EA:PushRegister",
        opcode::BREAKPOINT => "Breakpoint",
        _ => "<invalid>",
    }
}

/// Byte-offset quantities remembered during the linear pass, resolved to
/// instruction indices once all boundaries are known.
enum RawFix {
    Nothing,
    /// Branch / With: absolute target offset in the blob.
    Target(u64),
    /// Try: absolute end offsets of the try, catch and finally blocks.
    TryEnds(u64, u64, u64),
}

impl View for RawFix {
    type V = Fix;

    closed spec fn view(&self) -> Fix {
        match self {
            RawFix::Nothing => Fix::Nothing,
            RawFix::Target(t) => Fix::Target(*t),
            RawFix::TryEnds(t, k, f) => Fix::TryEnds(*t, *k, *f),
        }
    }
}

/// What the streams of a blob are decoded against.
pub open spec fn ctx(c: Cursor<'_>, consts: Seq<Value>) -> Ctx {
    Ctx { src: c.src(), consts: model::views(consts) }
}

fn saturating(a: u64, b: u64) -> (s: u64)
    ensures
        s == reader::sat(a as int, b as int),
{
    if b > u64::MAX - a {
        u64::MAX
    } else {
        a + b
    }
}

/// `pos + delta`, modulo the 64-bit range.
fn offset_by(pos: u64, delta: i64) -> (t: u64)
    ensures
        t == (pos + delta) as u64,
{
    (pos as i128 + delta as i128) as u64
}

fn unaligned_u16(c: &mut Cursor) -> (r: Result<u16, Error>)
    ensures
        final(c).data == old(c).data,
        r is Ok ==> old(c).pos < final(c).pos <= old(c).data@.len(),
        final(c).ptr_size == old(c).ptr_size,
        reader::reads(r, decode::unaligned_u16(old(c).src(), old(c).rd()), final(c).pos as int),
{
    let b0: u8 = c.u8()?;
    let b1: u8 = c.u8()?;
    Ok(b0 as u16 + 0x100 * (b1 as u16))
}

fn unaligned_u32(c: &mut Cursor) -> (r: Result<u32, Error>)
    ensures
        final(c).data == old(c).data,
        r is Ok ==> old(c).pos < final(c).pos <= old(c).data@.len(),
        final(c).ptr_size == old(c).ptr_size,
        reader::reads(r, decode::unaligned_u32(old(c).src(), old(c).rd()), final(c).pos as int),
{
    let b0: u8 = c.u8()?;
    let b1: u8 = c.u8()?;
    let b2: u8 = c.u8()?;
    let b3: u8 = c.u8()?;
    Ok(b0 as u32 + 0x100 * (b1 as u32) + 0x1_0000 * (b2 as u32) + 0x100_0000 * (b3 as u32))
}

fn aligned_string(c: &mut Cursor) -> (r: Result<String, Error>)
    ensures
        final(c).data == old(c).data,
        r is Ok ==> old(c).pos < final(c).pos <= old(c).data@.len(),
        final(c).ptr_size == old(c).ptr_size,
        reader::reads_view(
            r,
            old(c).src().ptr_string(old(c).src().align_ptr(old(c).rd())),
            final(c).pos as int,
        ),
{
    c.align_ptr();
    c.ptr_string()
}

/// Skip the dead `AptConstantPool` scratch of DefineFunction/2
/// (`{0x98765432, 0x12345678}` magics).
fn skip_func_pool(c: &mut Cursor, consts: Ghost<Seq<Value>>) -> (r: Result<(), Error>)
    ensures
        final(c).data == old(c).data,
        r is Ok ==> old(c).pos < final(c).pos <= old(c).data@.len(),
        final(c).ptr_size == old(c).ptr_size,
        match r {
            Ok(_) => decode::skip_pool(ctx(*old(c), consts@), old(c).rd()) == final(c).rd(),
            Err(e) => decode::skip_pool(ctx(*old(c), consts@), old(c).rd()).err == Some(e@),
        },
{
    c.align_ptr();
    c.i32()?;
    c.ptr()?;
    Ok(())
}

/// A slot that holds the index of a constant.
fn decode_pool_item(ic: &mut Cursor, consts: &[Value]) -> (r: Result<Value, Error>)
    ensures
        final(ic).data == old(ic).data,
        final(ic).ptr_size == old(ic).ptr_size,
        reader::reads_view(
            r,
            decode::pool_item(ctx(*old(ic), consts@), old(ic).rd()),
            final(ic).pos as int,
        ),
{
    let index: u64 = ic.ptr()?;
    let count: u64 = consts.len() as u64;
    if index < count {
        Ok(consts[index as usize].duplicate())
    } else {
        Err(Error::BadConstantIndex { index, count })
    }
}

/// `AptConstantPool { int nItems; ptr apItems }` where each item slot holds a
/// constant-table index.
fn decode_pool_items(c: &mut Cursor, consts: &[Value]) -> (r: Result<Vec<Value>, Error>)
    ensures
        final(c).data == old(c).data,
        r is Ok ==> old(c).pos < final(c).pos <= old(c).data@.len(),
        final(c).ptr_size == old(c).ptr_size,
        match r {
            Ok(v) => decode::pool_items(ctx(*old(c), consts@), old(c).rd()) == (
                model::views(v@),
                final(c).rd(),
            ),
            Err(e) => decode::pool_items(ctx(*old(c), consts@), old(c).rd()).1.err == Some(e@),
        },
{
    broadcast use model::lemma_views_push;

    let ghost x = ctx(*c, consts@);
    let ghost s1 = x.src.i32(x.src.align_ptr(c.rd()));
    let ghost s2 = x.src.ptr(s1.1);
    let ghost steps = reader::items(s1.0);
    let ghost step = decode::item_step(x);
    let ghost first = s2.1.at(s2.0 as int);
    proof {
        assert forall|d: Rd| d.err is Some implies (#[trigger] step(d)).1 == d by {}
        if first.err is Some {
            reader::lemma_reps_sticky(step, first, 0, steps);
        }
    }
    c.align_ptr();
    let n_items: i32 = c.i32()?;
    let items_off: u64 = c.ptr()?;
    let mut items: Vec<Value> = Vec::new();
    let mut ic = c.at(items_off);
    let mut i: i32 = 0;
    proof {
        model::lemma_views_empty::<Value>();
    }
    while i < n_items
        invariant
            0 <= i,
            i <= n_items || i == 0,
            steps == reader::items(n_items),
            x == ctx(*c, consts@),
            x == ctx(ic, consts@),
            step == decode::item_step(x),
            reader::sticky(step),
            reader::reps(step, first, i as nat) == (model::views(items@), ic.rd()),
            decode::pool_items(x, old(c).rd()) == (
                reader::reps(step, first, steps).0,
                reader::reps(step, first, steps).1.at(c.pos as int),
            ),
            x == ctx(*old(c), consts@),
            c.data == old(c).data,
            c.ptr_size == old(c).ptr_size,
        decreases n_items - i,
    {
        let value = match decode_pool_item(&mut ic, consts) {
            Ok(value) => value,
            Err(e) => {
                proof {
                    reader::lemma_reps_sticky(step, first, (i + 1) as nat, steps);
                }
                return Err(e);
            },
        };
        items.push(value);
        i = i + 1;
    }
    Ok(items)
}

/// `n` pointers to names at `off`. The cursor stays.
fn decode_names(c: &Cursor, off: u64, n: i32, consts: Ghost<Seq<Value>>) -> (r: Result<
    Vec<String>,
    Error,
>)
    ensures
        ({
            let x = ctx(*c, consts@);
            let got = reader::reps(
                decode::name_step(x),
                Rd::start(off as int),
                reader::items(n),
            );
            match r {
                Ok(v) => got.1.err is None && model::names(v@) == got.0,
                Err(e) => got.1.err == Some(e@),
            }
        }),
{
    let ghost x = ctx(*c, consts@);
    let ghost steps = reader::items(n);
    let ghost step = decode::name_step(x);
    let ghost first = Rd::start(off as int);
    let mut pc = c.at(off);
    let mut names: Vec<String> = Vec::new();
    let mut i: i32 = 0;
    proof {
        assert forall|d: Rd| d.err is Some implies (#[trigger] step(d)).1 == d by {}
        assert(model::names(names@) =~= Seq::<Seq<char>>::empty());
    }
    while i < n
        invariant
            0 <= i,
            i <= n || i == 0,
            steps == reader::items(n),
            x == ctx(pc, consts@),
            x == ctx(*c, consts@),
            step == decode::name_step(x),
            first == Rd::start(off as int),
            reader::sticky(step),
            reader::reps(step, first, i as nat) == (model::names(names@), pc.rd()),
        decreases n - i,
    {
        let name = match pc.ptr_string() {
            Ok(name) => name,
            Err(e) => {
                proof {
                    reader::lemma_reps_sticky(step, first, (i + 1) as nat, steps);
                }
                return Err(e);
            },
        };
        let ghost before = names@;
        names.push(name);
        i = i + 1;
        assert(model::names(names@) =~= model::names(before).push(name@));
    }
    Ok(names)
}

/// One register parameter.
fn decode_reg_param(pc: &mut Cursor, consts: Ghost<Seq<Value>>) -> (r: Result<
    (u32, String),
    Error,
>)
    ensures
        final(pc).data == old(pc).data,
        final(pc).ptr_size == old(pc).ptr_size,
        match r {
            Ok(v) => decode::reg_param(ctx(*old(pc), consts@), old(pc).rd()) == (
                (v.0, v.1@),
                final(pc).rd(),
            ),
            Err(e) => decode::reg_param(ctx(*old(pc), consts@), old(pc).rd()).1.err == Some(e@),
        },
{
    pc.align_ptr();
    let register: u32 = pc.u32()?;
    let name = pc.ptr_string()?;
    Ok((register, name))
}

/// `n` register parameters at `off`. The cursor stays.
fn decode_reg_params(c: &Cursor, off: u64, n: i32, consts: Ghost<Seq<Value>>) -> (r: Result<
    Vec<(u32, String)>,
    Error,
>)
    ensures
        ({
            let x = ctx(*c, consts@);
            let got = reader::reps(
                decode::param_step(x),
                Rd::start(off as int),
                reader::items(n),
            );
            match r {
                Ok(v) => got.1.err is None && model::reg_names(v@) == got.0,
                Err(e) => got.1.err == Some(e@),
            }
        }),
{
    let ghost x = ctx(*c, consts@);
    let ghost steps = reader::items(n);
    let ghost step = decode::param_step(x);
    let ghost first = Rd::start(off as int);
    let mut pc = c.at(off);
    let mut params: Vec<(u32, String)> = Vec::new();
    let mut i: i32 = 0;
    proof {
        assert forall|d: Rd| d.err is Some implies (#[trigger] step(d)).1 == d by {}
        assert(model::reg_names(params@) =~= Seq::<(u32, Seq<char>)>::empty());
    }
    while i < n
        invariant
            0 <= i,
            i <= n || i == 0,
            steps == reader::items(n),
            x == ctx(pc, consts@),
            x == ctx(*c, consts@),
            step == decode::param_step(x),
            first == Rd::start(off as int),
            reader::sticky(step),
            reader::reps(step, first, i as nat) == (model::reg_names(params@), pc.rd()),
        decreases n - i,
    {
        let param = match decode_reg_param(&mut pc, consts) {
            Ok(param) => param,
            Err(e) => {
                proof {
                    reader::lemma_reps_sticky(step, first, (i + 1) as nat, steps);
                }
                return Err(e);
            },
        };
        let ghost before = params@;
        params.push(param);
        i = i + 1;
        assert(model::reg_names(params@) =~= model::reg_names(before).push((param.0, param.1@)));
    }
    Ok(params)
}

/// Size of a function's body and dead scratch. Returns where the body ends.
fn decode_body_extent(c: &mut Cursor, consts: Ghost<Seq<Value>>) -> (r: Result<u64, Error>)
    ensures
        final(c).data == old(c).data,
        final(c).ptr_size == old(c).ptr_size,
        match r {
            Ok(end) => {
                &&& decode::body_extent(ctx(*old(c), consts@), old(c).rd()) == (
                    end as int,
                    final(c).rd(),
                )
                &&& old(c).pos <= final(c).pos <= old(c).data@.len()
                &&& final(c).pos <= end
            },
            Err(e) => decode::body_extent(ctx(*old(c), consts@), old(c).rd()).1.err == Some(e@),
        },
{
    proof {
        bytes::lemma_powers();
    }
    c.align(4);
    let code_size: i32 = c.i32()?;
    skip_func_pool(c, consts)?;
    let size: u64 = if code_size > 0 {
        code_size as u64
    } else {
        0
    };
    Ok(saturating(c.pos, size))
}

/// The payload of `Try`.
fn decode_try(c: &mut Cursor, consts: Ghost<Seq<Value>>) -> (r: Result<(Instruction, RawFix), Error>)
    ensures
        final(c).data == old(c).data,
        r is Ok ==> old(c).pos < final(c).pos <= old(c).data@.len(),
        final(c).ptr_size == old(c).ptr_size,
        r matches Ok(v) ==> fix_fits(v.0@, v.1@, final(c).pos as int),
        match r {
            Ok(v) => decode::try_payload(ctx(*old(c), consts@), old(c).rd()) == (
                (v.0@, v.1@),
                final(c).rd(),
            ),
            Err(e) => decode::try_payload(ctx(*old(c), consts@), old(c).rd()).1.err == Some(e@),
        },
{
    reveal(decode::try_payload);
    c.align_ptr();
    let try_size: u32 = c.u32()?;
    let catch_size: u32 = c.u32()?;
    let finally_size: u32 = c.u32()?;
    let flags: u8 = c.u8()?;
    c.u8()?;
    c.u8()?;
    let caught_register: u8 = c.u8()?;
    let catch_var = if flags & 4 != 0 {
        c.ptr()?;  // raw value, not an offset
        Some(CatchVar::Register(caught_register))
    } else {
        let s = c.ptr_string()?;
        if flags & 1 != 0 {
            Some(CatchVar::Variable(s))
        } else {
            None
        }
    };
    let t: u64 = saturating(c.pos, try_size as u64);
    let k: u64 = saturating(t, catch_size as u64);
    let f: u64 = saturating(k, finally_size as u64);
    Ok(
        (
            Instruction::Try {
                try_count: 0,
                catch_count: 0,
                finally_count: 0,
                has_catch: flags & 1 != 0,
                has_finally: flags & 2 != 0,
                catch_var,
            },
            RawFix::TryEnds(t, k, f),
        ),
    )
}

/// An instruction without a body: opcode `op`, found at `op_offset`.
#[verifier::rlimit(60)]
fn decode_flat(c: &mut Cursor, op: u8, op_offset: u64, consts: &[Value]) -> (r: Result<
    (Instruction, RawFix),
    Error,
>)
    ensures
        final(c).data == old(c).data,
        final(c).ptr_size == old(c).ptr_size,
        r matches Ok(v) ==> {
            &&& fix_fits(v.0@, v.1@, final(c).pos as int)
            &&& old(c).pos <= old(c).data@.len() ==> old(c).pos <= final(c).pos
                <= old(c).data@.len()
        },
        match r {
            Ok(v) => decode::flat_insn(
                ctx(*old(c), consts@),
                op,
                op_offset as int,
                old(c).rd(),
            ) == ((v.0@, v.1@), final(c).rd()),
            Err(e) => decode::flat_insn(
                ctx(*old(c), consts@),
                op,
                op_offset as int,
                old(c).rd(),
            ).1.err == Some(e@),
        },
{
    reveal(decode::flat_insn);
    let insn = match op {
        opcode::END => Instruction::End,
        opcode::GOTO_FRAME => {
            c.align_ptr();
            let v: i32 = c.i32()?;
            Instruction::GotoFrame(v)
        },
        opcode::GET_URL => {
            c.align_ptr();
            let url = c.ptr_string()?;
            let target = c.ptr_string()?;
            Instruction::GetUrl { url, target }
        },
        opcode::STORE_REGISTER => {
            c.align_ptr();
            let v: i32 = c.i32()?;
            Instruction::StoreRegister(v)
        },
        opcode::SET_TARGET => Instruction::SetTarget(aligned_string(c)?),
        opcode::GOTO_LABEL => Instruction::GotoLabel(aligned_string(c)?),
        opcode::GOTO_FRAME2 => {
            c.align_ptr();
            let v: i32 = c.i32()?;
            Instruction::GotoFrame2 { play: v != 0 }
        },
        opcode::PUSH => Instruction::Push(decode_pool_items(c, consts)?),
        opcode::DEFINE_DICTIONARY => {
            Instruction::DefineDictionary(decode_pool_items(c, consts)?)
        },
        opcode::TRY => {
            return decode_try(c, Ghost(consts@));
        },
        opcode::WITH => {
            c.align_ptr();
            let delta: i64 = match c.ptr_size {
                PtrSize::Four => {
                    let v: i32 = c.i32()?;
                    v as i64
                },
                PtrSize::Eight => {
                    let v: u64 = c.u64()?;
                    v as i64
                },
            };
            let t: u64 = offset_by(c.pos, delta);
            return Ok((Instruction::With { end_target: 0 }, RawFix::Target(t)));
        },
        opcode::BRANCH_ALWAYS | opcode::BRANCH_IF_TRUE | opcode::EA_BRANCH_IF_FALSE => {
            c.align_ptr();
            let delta: i32 = c.i32()?;
            let t: u64 = offset_by(c.pos, delta as i64);
            let insn = match op {
                opcode::BRANCH_ALWAYS => Instruction::BranchAlways { target: 0 },
                opcode::BRANCH_IF_TRUE => Instruction::BranchIfTrue { target: 0 },
                _ => Instruction::BranchIfFalse { target: 0 },
            };
            return Ok((insn, RawFix::Target(t)));
        },
        opcode::EA_TRACE_START => Instruction::TraceStart(unaligned_u32(c)?),
        0xA1 => Instruction::PushString { kind: PushStringKind::Push, value: aligned_string(c)? },
        0xA4 => Instruction::PushString { kind: PushStringKind::GetVar, value: aligned_string(c)? },
        0xA5 => Instruction::PushString {
            kind: PushStringKind::GetMember,
            value: aligned_string(c)?,
        },
        0xA6 => Instruction::PushString { kind: PushStringKind::SetVar, value: aligned_string(c)? },
        0xA7 => Instruction::PushString {
            kind: PushStringKind::SetMember,
            value: aligned_string(c)?,
        },
        0xA2 => {
            let v: u8 = c.u8()?;
            Instruction::DictRef { kind: DictRefKind::PushByte, index: v as u16 }
        },
        0xA3 => Instruction::DictRef { kind: DictRefKind::PushWord, index: unaligned_u16(c)? },
        0xAE => {
            let v: u8 = c.u8()?;
            Instruction::DictRef { kind: DictRefKind::ByteGetVar, index: v as u16 }
        },
        0xAF => {
            let v: u8 = c.u8()?;
            Instruction::DictRef { kind: DictRefKind::ByteGetMember, index: v as u16 }
        },
        0xB0 => {
            let v: u8 = c.u8()?;
            Instruction::DictRef { kind: DictRefKind::CallFuncPop, index: v as u16 }
        },
        0xB1 => {
            let v: u8 = c.u8()?;
            Instruction::DictRef { kind: DictRefKind::CallFuncSetVar, index: v as u16 }
        },
        0xB2 => {
            let v: u8 = c.u8()?;
            Instruction::DictRef { kind: DictRefKind::CallMethodPop, index: v as u16 }
        },
        0xB3 => {
            let v: u8 = c.u8()?;
            Instruction::DictRef { kind: DictRefKind::CallMethodSetVar, index: v as u16 }
        },
        0xB4 => Instruction::PushFloat(unaligned_u32(c)?),
        0xB5 => Instruction::PushByte(c.u8()?),
        0xB6 => Instruction::PushWord(unaligned_u16(c)?),
        0xB7 => Instruction::PushDWord(unaligned_u32(c)?),
        opcode::EA_PUSH_REGISTER => Instruction::PushRegister(c.u8()?),
        op => {
            if !is_simple(op) {
                return Err(Error::InvalidOpcode { opcode: op, offset: op_offset });
            }
            Instruction::Simple(op)
        },
    };
    Ok((insn, RawFix::Nothing))
}

/// The end of an extent as a number of any size.
pub open spec fn extent(end: Option<u64>) -> Option<int> {
    match end {
        Some(e) => Some(e as int),
        None => None,
    }
}

/// The extents that an instruction can still have open, found before `next`.
pub open spec fn fix_fits(insn: model::Instruction, fix: Fix, next: int) -> bool {
    match fix {
        Fix::Nothing => true,
        Fix::Target(_) => {
            ||| insn is With
            ||| insn is BranchAlways
            ||| insn is BranchIfTrue
            ||| insn is BranchIfFalse
        },
        Fix::TryEnds(t, k, f) => insn is Try && next <= t <= k <= f,
    }
}

/// What precedes the body of DefineFunction: its name and parameters. Returns
/// them with the end of the body; the cursor stands at its start.
fn decode_function_head(c: &mut Cursor, consts: Ghost<Seq<Value>>) -> (r: Result<
    (String, Vec<String>, u64),
    Error,
>)
    ensures
        final(c).data == old(c).data,
        final(c).ptr_size == old(c).ptr_size,
        match r {
            Ok(v) => {
                let h = decode::function_head(ctx(*old(c), consts@), old(c).rd());
                &&& h.1 == final(c).rd()
                &&& h.0.name == v.0@
                &&& h.0.params == model::names(v.1@)
                &&& h.0.end == v.2
                &&& old(c).pos < final(c).pos <= old(c).data@.len()
                &&& final(c).pos <= v.2
            },
            Err(e) => decode::function_head(ctx(*old(c), consts@), old(c).rd()).1.err == Some(e@),
        },
{
    reveal(decode::function_head);
    let ghost x = ctx(*c, consts@);
    let ghost s1 = x.src.ptr_string(x.src.align_ptr(c.rd()));
    let ghost s2 = x.src.i32(x.src.align(s1.1, 4));
    let ghost s3 = x.src.ptr(s2.1);
    let ghost step = decode::name_step(x);
    proof {
        assert forall|d: Rd| d.err is Some implies (#[trigger] step(d)).1 == d by {}
        if s3.1.err is Some {
            reader::lemma_reps_sticky(step, s3.1.at(s3.0 as int), 0, reader::items(s2.0));
        }
    }
    let name = aligned_string(c)?;
    proof {
        bytes::lemma_powers();
    }
    c.align(4);
    let n_params: i32 = c.i32()?;
    let params_off: u64 = c.ptr()?;
    let params = decode_names(c, params_off, n_params, consts)?;
    let body_end: u64 = decode_body_extent(c, consts)?;
    Ok((name, params, body_end))
}

/// As [`decode_function_head`], for DefineFunction2: name, parameters, register
/// count, flags, end of the body.
fn decode_function2_head(c: &mut Cursor, consts: Ghost<Seq<Value>>) -> (r: Result<
    (String, Vec<(u32, String)>, i16, i16, u64),
    Error,
>)
    ensures
        final(c).data == old(c).data,
        final(c).ptr_size == old(c).ptr_size,
        match r {
            Ok(v) => {
                let h = decode::function2_head(ctx(*old(c), consts@), old(c).rd());
                &&& h.1 == final(c).rd()
                &&& h.0.name == v.0@
                &&& h.0.params == model::reg_names(v.1@)
                &&& h.0.register_count == v.2
                &&& h.0.flags == v.3
                &&& h.0.end == v.4
                &&& old(c).pos < final(c).pos <= old(c).data@.len()
                &&& final(c).pos <= v.4
            },
            Err(e) => decode::function2_head(ctx(*old(c), consts@), old(c).rd()).1.err == Some(e@),
        },
{
    reveal(decode::function2_head);
    let ghost x = ctx(*c, consts@);
    let ghost s1 = x.src.ptr_string(x.src.align_ptr(c.rd()));
    let ghost s2 = x.src.i32(x.src.align(s1.1, 4));
    let ghost s3 = x.src.i16(s2.1);
    let ghost s4 = x.src.i16(s3.1);
    let ghost s5 = x.src.ptr(s4.1);
    let ghost step = decode::param_step(x);
    proof {
        assert forall|d: Rd| d.err is Some implies (#[trigger] step(d)).1 == d by {}
        if s5.1.err is Some {
            reader::lemma_reps_sticky(step, s5.1.at(s5.0 as int), 0, reader::items(s2.0));
        }
    }
    let name = aligned_string(c)?;
    proof {
        bytes::lemma_powers();
    }
    c.align(4);
    let n_params: i32 = c.i32()?;
    let register_count: i16 = c.i16()?;
    let flags: i16 = c.i16()?;
    let params_off: u64 = c.ptr()?;
    let params = decode_reg_params(c, params_off, n_params, consts)?;
    let body_end: u64 = decode_body_extent(c, consts)?;
    Ok((name, params, register_count, flags, body_end))
}

/// One instruction and the extents it still has open.
fn decode_insn(c: &mut Cursor, consts: &[Value]) -> (r: Result<(Instruction, RawFix), Error>)
    ensures
        final(c).data == old(c).data,
        final(c).ptr_size == old(c).ptr_size,
        match r {
            Ok(v) => {
                &&& decode::insn(ctx(*old(c), consts@), old(c).rd()) == (
                    (v.0@, v.1@),
                    final(c).rd(),
                )
                &&& old(c).pos < final(c).pos <= old(c).data@.len()
                &&& fix_fits(v.0@, v.1@, final(c).pos as int)
            },
            Err(e) => decode::insn(ctx(*old(c), consts@), old(c).rd()).1.err == Some(e@),
        },
    decreases old(c).data@.len() - old(c).pos, 0int,
{
    let op_offset: u64 = c.pos;
    let op: u8 = c.u8()?;
    match op {
        opcode::DEFINE_FUNCTION => {
            let (name, params, body_end) = decode_function_head(c, Ghost(consts@))?;
            let body = decode_block(c, Some(body_end), consts)?;
            c.pos = body_end;
            let body = ActionStream { instructions: body };
            assert(body@ =~= model::views(body.instructions@));
            Ok((Instruction::DefineFunction { name, params, body }, RawFix::Nothing))
        },
        opcode::DEFINE_FUNCTION2 => {
            let (name, params, register_count, flags, body_end) = decode_function2_head(
                c,
                Ghost(consts@),
            )?;
            let body = decode_block(c, Some(body_end), consts)?;
            c.pos = body_end;
            let body = ActionStream { instructions: body };
            assert(body@ =~= model::views(body.instructions@));
            Ok(
                (
                    Instruction::DefineFunction2 { name, params, register_count, flags, body },
                    RawFix::Nothing,
                ),
            )
        },
        _ => decode_flat(c, op, op_offset, consts),
    }
}

/// The instructions decoded so far with what is open of them.
spec fn gathered(insns: Seq<Instruction>, starts: Seq<u64>, fixes: Seq<RawFix>) -> Seq<
    decode::Raw,
> {
    Seq::new(
        insns.len(),
        |i: int| decode::Raw { start: starts[i], insn: insns[i]@, fix: fixes[i]@ },
    )
}

/// Where `target` stands among the growing `boundaries`.
fn to_index(boundaries: &Vec<u64>, target: u64) -> (r: Option<usize>)
    requires
        decode::increasing(boundaries@),
    ensures
        match r {
            Some(i) => {
                &&& boundaries@.contains(target)
                &&& i == boundaries@.index_of(target)
                &&& i < boundaries@.len()
                &&& boundaries@[i as int] == target
            },
            None => !boundaries@.contains(target),
        },
{
    let mut lo: usize = 0;
    let mut hi: usize = boundaries.len();
    while lo < hi
        invariant
            lo <= hi <= boundaries@.len(),
            decode::increasing(boundaries@),
            forall|i: int| 0 <= i < lo ==> boundaries@[i] < target,
            forall|i: int| hi <= i < boundaries@.len() ==> target < boundaries@[i],
        decreases hi - lo,
    {
        let mid: usize = lo + (hi - lo) / 2;
        let at: u64 = boundaries[mid];
        if at == target {
            proof {
                decode::lemma_index_of(boundaries@, target, mid as int);
            }
            return Some(mid);
        } else if at < target {
            lo = mid + 1;
        } else {
            hi = mid;
        }
    }
    None
}

/// Turn the byte offsets of the `i`-th instruction into instruction indices.
fn resolve_insn(
    insn: &mut Instruction,
    fix: &RawFix,
    boundaries: &Vec<u64>,
    i: usize,
    stream: u64,
) -> (r: Result<(), Error>)
    requires
        decode::increasing(boundaries@),
        i + 1 < boundaries@.len(),
        fix_fits(old(insn)@, fix@, boundaries@[i + 1] as int),
    ensures
        match r {
            Ok(_) => {
                &&& decode::off_boundary(boundaries@, fix@) is None
                &&& final(insn)@ == decode::resolve_one(
                    decode::Raw { start: 0, insn: old(insn)@, fix: fix@ },
                    boundaries@,
                    i as int,
                )
            },
            Err(e) => {
                &&& decode::off_boundary(boundaries@, fix@) matches Some(target)
                &&& e@ == bad_target(target, stream)
            },
        },
{
    match fix {
        RawFix::Nothing => {},
        RawFix::Target(t) => {
            let idx: usize = match to_index(boundaries, *t) {
                Some(idx) => idx,
                None => {
                    return Err(Error::BadBranchTarget { target: *t, stream });
                },
            };
            match insn {
                Instruction::With { end_target } => {
                    *end_target = idx;
                },
                Instruction::BranchAlways { target } => {
                    *target = idx;
                },
                Instruction::BranchIfTrue { target } => {
                    *target = idx;
                },
                Instruction::BranchIfFalse { target } => {
                    *target = idx;
                },
                _ => {},
            }
        },
        RawFix::TryEnds(t, k, f) => {
            let ti: usize = match to_index(boundaries, *t) {
                Some(idx) => idx,
                None => {
                    return Err(Error::BadBranchTarget { target: *t, stream });
                },
            };
            let ci: usize = match to_index(boundaries, *k) {
                Some(idx) => idx,
                None => {
                    return Err(Error::BadBranchTarget { target: *k, stream });
                },
            };
            let fi: usize = match to_index(boundaries, *f) {
                Some(idx) => idx,
                None => {
                    return Err(Error::BadBranchTarget { target: *f, stream });
                },
            };
            assert(i + 1 <= ti <= ci <= fi);
            match insn {
                Instruction::Try { try_count, catch_count, finally_count, .. } => {
                    *try_count = ti - (i + 1);
                    *catch_count = ci - ti;
                    *finally_count = fi - ci;
                },
                _ => {},
            }
        },
    }
    Ok(())
}

pub open spec fn bad_target(target: u64, stream: u64) -> model::Error {
    model::Error::BadBranchTarget { target, stream }
}

/// Decode instructions until `End` (when `end` is `None`) or until the byte
/// extent `[.., end)` is consumed (function bodies).
#[verifier::rlimit(40)]
fn decode_block(c: &mut Cursor, end: Option<u64>, consts: &[Value]) -> (r: Result<
    Vec<Instruction>,
    Error,
>)
    ensures
        final(c).data == old(c).data,
        final(c).ptr_size == old(c).ptr_size,
        match r {
            Ok(v) => {
                &&& decode::block(ctx(*old(c), consts@), old(c).rd(), extent(end)) == (
                    model::views(v@),
                    final(c).rd(),
                )
                &&& end matches Some(e) ==> e <= final(c).pos
                &&& old(c).pos <= old(c).data@.len() ==> final(c).pos <= old(c).data@.len()
            },
            Err(e) => decode::block(ctx(*old(c), consts@), old(c).rd(), extent(end)).1.err == Some(
                e@,
            ),
        },
    decreases old(c).data@.len() - old(c).pos, 1int,
{
    let ghost x = ctx(*c, consts@);
    let ghost c0 = c.rd();
    let ghost e = extent(end);
    let stream_start: u64 = c.pos;
    let mut instructions: Vec<Instruction> = Vec::new();
    let mut starts: Vec<u64> = Vec::new();
    let mut fixes: Vec<RawFix> = Vec::new();
    let mut more: bool = true;
    proof {
        assert(gathered(instructions@, starts@, fixes@) + decode::raws(x, c0, e).0
            =~= decode::raws(x, c0, e).0);
    }
    while more
        invariant
            instructions@.len() == starts@.len(),
            instructions@.len() == fixes@.len(),
            x == ctx(*c, consts@),
            x == ctx(*old(c), consts@),
            c.data == old(c).data,
            c.ptr_size == old(c).ptr_size,
            c0 == old(c).rd(),
            c0.pos <= c.pos,
            e == extent(end),
            c0.pos <= x.src.len() ==> c.pos <= x.src.len(),
            c.pos == c0.pos || c.pos <= x.src.len(),
            decode::increasing(starts@),
            forall|i: int| 0 <= i < starts@.len() ==> starts@[i] < c.pos,
            forall|i: int|
                #![trigger fixes@[i]]
                0 <= i < fixes@.len() ==> fix_fits(
                    instructions@[i]@,
                    fixes@[i]@,
                    if i + 1 < starts@.len() {
                        starts@[i + 1] as int
                    } else {
                        c.pos as int
                    },
                ),
            more ==> decode::raws(x, c0, e) == (
                gathered(instructions@, starts@, fixes@) + decode::raws(x, c.rd(), e).0,
                decode::raws(x, c.rd(), e).1,
            ),
            !more ==> decode::raws(x, c0, e) == (
                gathered(instructions@, starts@, fixes@),
                c.rd(),
            ),
            !more ==> (end matches Some(e) ==> e <= c.pos),
        decreases
                (if more {
                    1int
                } else {
                    0int
                }),
                x.src.len() - c.pos,
    {
        let finished = match end {
            Some(e) => c.pos >= e,
            None => false,
        };
        if finished {
            more = false;
            proof {
                assert(gathered(instructions@, starts@, fixes@) + decode::raws(x, c.rd(), e).0
                    =~= gathered(instructions@, starts@, fixes@));
            }
        } else {
            let start: u64 = c.pos;
            let ghost before = c.rd();
            let ghost old_all = gathered(instructions@, starts@, fixes@);
            let ghost (old_insns, old_starts, old_fixes) = (instructions@, starts@, fixes@);
            let (insn, fix) = match decode_insn(c, consts) {
                Ok(v) => v,
                Err(err) => {
                    return Err(err);
                },
            };
            let is_end = match insn {
                Instruction::End => true,
                _ => false,
            };
            let ghost raw = decode::Raw { start, insn: insn@, fix: fix@ };
            instructions.push(insn);
            starts.push(start);
            fixes.push(fix);
            proof {
                let all = gathered(instructions@, starts@, fixes@);
                assert(all =~= old_all.push(raw));
                assert forall|i: int|
                    #![trigger fixes@[i]]
                    0 <= i < fixes@.len() implies fix_fits(
                    instructions@[i]@,
                    fixes@[i]@,
                    if i + 1 < starts@.len() {
                        starts@[i + 1] as int
                    } else {
                        c.pos as int
                    },
                ) by {
                    if i < old_fixes.len() {
                        assert(fixes@[i] == old_fixes[i]);
                        assert(instructions@[i] == old_insns[i]);
                    }
                }
            }
            if is_end && end.is_none() {
                more = false;
                proof {
                    assert(decode::raws(x, before, e) == (seq![raw], c.rd()));
                    assert(old_all + seq![raw] =~= gathered(instructions@, starts@, fixes@));
                }
            } else {
                proof {
                    let rest = decode::raws(x, c.rd(), e);
                    assert(decode::raws(x, before, e) == (seq![raw] + rest.0, rest.1));
                    assert(old_all + (seq![raw] + rest.0) =~= gathered(
                        instructions@,
                        starts@,
                        fixes@,
                    ) + rest.0);
                }
            }
        }
    }
    let ghost raws = gathered(instructions@, starts@, fixes@);
    let mut boundaries = starts;
    boundaries.push(c.pos);
    let ghost bounds = decode::boundaries(raws, c.pos as int);
    let ghost d = c.rd();
    let count: usize = instructions.len();
    proof {
        assert(boundaries@ =~= bounds);
        assert(decode::block(x, c0, e) == decode::resolve(raws, bounds, c0.pos, d, raws.len()));
    }
    // Resolve byte offsets to instruction indices.
    let mut i: usize = 0;
    while i < count
        invariant
            i <= count,
            count == raws.len(),
            count == instructions@.len(),
            count == fixes@.len(),
            boundaries@ == bounds,
            bounds.len() == count + 1,
            bounds == decode::boundaries(raws, c.pos as int),
            decode::increasing(bounds),
            d == c.rd(),
            stream_start == c0.pos,
            c0 == old(c).rd(),
            x == ctx(*old(c), consts@),
            c.data == old(c).data,
            c.ptr_size == old(c).ptr_size,
            e == extent(end),
            decode::block(x, c0, e) == decode::resolve(raws, bounds, c0.pos, d, raws.len()),
            decode::resolve(raws, bounds, c0.pos, d, i as nat).1 == d,
            forall|j: int|
                0 <= j < i ==> (#[trigger] instructions@[j])@ == decode::resolve_one(
                    raws[j],
                    bounds,
                    j,
                ),
            forall|j: int| i <= j < count ==> (#[trigger] instructions@[j])@ == raws[j].insn,
            forall|j: int| 0 <= j < count ==> (#[trigger] fixes@[j])@ == raws[j].fix,
            forall|j: int|
                0 <= j < count ==> fix_fits(
                    (#[trigger] raws[j]).insn,
                    raws[j].fix,
                    bounds[j + 1] as int,
                ),
        decreases count - i,
    {
        let ghost now = instructions@;
        assert(fix_fits(raws[i as int].insn, raws[i as int].fix, bounds[i + 1] as int));
        assert(fixes@[i as int]@ == raws[i as int].fix);
        assert(now[i as int]@ == raws[i as int].insn);
        match resolve_insn(&mut instructions[i], &fixes[i], &boundaries, i, stream_start) {
            Ok(_) => {},
            Err(e) => {
                proof {
                    decode::lemma_resolve_sticky(
                        raws,
                        bounds,
                        c0.pos,
                        d,
                        (i + 1) as nat,
                        raws.len(),
                    );
                }
                return Err(e);
            },
        }
        assert(instructions@[i as int]@ == decode::resolve_one(
            raws[i as int],
            bounds,
            i as int,
        ));
        i = i + 1;
    }
    proof {
        decode::lemma_resolve(raws, bounds, c0.pos, d, raws.len());
        assert(decode::resolve(raws, bounds, c0.pos, d, raws.len()).0 =~= model::views(
            instructions@,
        ));
    }
    Ok(instructions)
}

/// Decode the action stream starting at `offset` in the blob.
pub fn decode_stream(cur: &Cursor, offset: u64, consts: &[Value]) -> (r: Result<
    ActionStream,
    Error,
>)
    ensures
        reader::gives(r, decode::block(ctx(*cur, consts@), Rd::start(offset as int), None)),
{
    let mut c = cur.at(offset);
    let instructions = decode_block(&mut c, None, consts)?;
    let s = ActionStream { instructions };
    assert(s@ =~= model::views(instructions@));
    Ok(s)
}

/// Slots of an encoded instruction that wait for a distance or a size.
enum EncodeFix {
    Nothing,
    /// A branch or `With`.
    One(Patch),
    /// The three sizes of `Try`.
    Three(Patch, Patch, Patch),
}

/// Whether `fix` names the slots of an instruction that starts at `start`.
closed spec fn names_slots(fix: EncodeFix, insn: model::Instruction, start: int, ps: nat) -> bool {
    let p = bytes::round_up(start + 1, ps);
    match insn {
        model::Instruction::BranchAlways { .. } => fix matches EncodeFix::One(a) && a.pos() == p,
        model::Instruction::BranchIfTrue { .. } => fix matches EncodeFix::One(a) && a.pos() == p,
        model::Instruction::BranchIfFalse { .. } => fix matches EncodeFix::One(a) && a.pos() == p,
        model::Instruction::With { .. } => fix matches EncodeFix::One(a) && a.pos() == p,
        model::Instruction::Try { .. } => fix matches EncodeFix::Three(a, b, c) && a.pos() == p
            && b.pos() == p + 4 && c.pos() == p + 8,
        _ => fix is Nothing,
    }
}

fn encode_func_pool(sink: &mut Sink)
    requires
        old(sink)@.ok(),
    ensures
        final(sink)@ == encode::func_pool(old(sink)@),
        final(sink)@.ok(),
        final(sink).arena.ptr_size == old(sink).arena.ptr_size,
{
    sink.align_ptr();
    sink.i32(FUNC_POOL_ITEMS_MAGIC as i32);
    sink.ptr_value(FUNC_POOL_ARRAY_MAGIC as u64);
}

fn encode_pool_items(sink: &mut Sink, op: u8, items: &Vec<Value>)
    requires
        old(sink)@.ok(),
    ensures
        final(sink)@ == encode::pool_items(old(sink)@, op, model::views(items@)),
        final(sink)@.ok(),
        final(sink).arena.ptr_size == old(sink).arena.ptr_size,
{
    broadcast use {model::lemma_views_push, out::ext_constants, out::ext_facts};

    sink.u8(op);
    sink.align_ptr();
    sink.i32(items.len() as i32);
    let ghost a = sink@;
    let mut indices: Vec<u64> = Vec::new();
    let mut i: usize = 0;
    proof {
        assert(a.consts + model::views(items@.take(0)) =~= a.consts);
    }
    while i < items.len()
        invariant
            i <= items@.len(),
            sink.arena@ == a.img,
            sink.arena.ptr_size == old(sink).arena.ptr_size,
            sink.deferred@ == a.def,
            model::views(sink.consts@) == a.consts + model::views(items@.take(i as int)),
            indices@.len() == i,
            forall|j: int| 0 <= j < i ==> #[trigger] indices@[j] == a.consts.len() + j,
        decreases items@.len() - i,
    {
        let ghost before = sink.consts@;
        indices.push(sink.consts.len() as u64);
        let item = items[i].duplicate();
        sink.consts.push(item);
        i = i + 1;
        proof {
            model::lemma_views_push(before, item);
            model::lemma_views_push(items@.take(i - 1), items@[i - 1]);
            assert(items@.take(i as int) =~= items@.take(i - 1).push(items@[i - 1]));
            assert(model::views(sink.consts@) =~= a.consts + model::views(items@.take(i as int)));
        }
    }
    proof {
        assert(items@.take(i as int) =~= items@);
        assert(sink@ == a.constants(model::views(items@)));
    }
    if indices.len() == 0 {
        assert(a.consts + model::views(items@) =~= a.consts);
        sink.ptr_value(0);
    } else {
        proof {
            assert(numbers(indices@) =~= encode::counting(a.consts.len(), items@.len()));
        }
        sink.ptr_array(indices);
    }
}

/// An equal list of its own.
fn duplicate_names(v: &Vec<String>) -> (r: Vec<String>)
    ensures
        model::names(r@) == model::names(v@),
{
    let mut r: Vec<String> = Vec::new();
    let mut i: usize = 0;
    while i < v.len()
        invariant
            i <= v@.len(),
            r@.len() == i,
            forall|j: int| 0 <= j < i ==> (#[trigger] r@[j])@ == v@[j]@,
        decreases v@.len() - i,
    {
        r.push(v[i].clone());
        i = i + 1;
    }
    assert(model::names(r@) =~= model::names(v@));
    r
}

/// An equal list of its own.
fn duplicate_params(v: &Vec<(u32, String)>) -> (r: Vec<(u32, String)>)
    ensures
        model::reg_names(r@) == model::reg_names(v@),
{
    let mut r: Vec<(u32, String)> = Vec::new();
    let mut i: usize = 0;
    while i < v.len()
        invariant
            i <= v@.len(),
            r@.len() == i,
            forall|j: int|
                0 <= j < i ==> (#[trigger] r@[j]).0 == v@[j].0 && r@[j].1@ == v@[j].1@,
        decreases v@.len() - i,
    {
        r.push((v[i].0, v[i].1.clone()));
        i = i + 1;
    }
    assert(model::reg_names(r@) =~= model::reg_names(v@));
    r
}

/// `Try`, its three sizes not yet filled in.
fn encode_try(
    sink: &mut Sink,
    has_catch: bool,
    has_finally: bool,
    catch_var: &Option<CatchVar>,
) -> (p: (Patch, Patch, Patch))
    requires
        old(sink)@.ok(),
    ensures
        ({
            let var = match *catch_var {
                Some(v) => Some(v@),
                None => None,
            };
            final(sink)@ == encode::try_struct(old(sink)@, has_catch, has_finally, var)
        }),
        final(sink)@.ok(),
        final(sink).arena.ptr_size == old(sink).arena.ptr_size,
        ({
            let start = bytes::round_up(old(sink)@.len() + 1, old(sink)@.ps());
            p.0.pos() == start && p.1.pos() == start + 4 && p.2.pos() == start + 8
        }),
{
    broadcast use out::group_ext;

    sink.u8(opcode::TRY);
    sink.align_ptr();
    let try_patch = sink.i32_patch();
    let catch_patch = sink.i32_patch();
    let finally_patch = sink.i32_patch();
    let c: u8 = if has_catch {
        1
    } else {
        0
    };
    let f: u8 = if has_finally {
        2
    } else {
        0
    };
    let (r, register): (u8, u8) = match catch_var {
        Some(CatchVar::Register(register)) => (4, *register),
        _ => (0, 0),
    };
    sink.u8(c | f | r);
    sink.u8(0);
    sink.u8(0);
    sink.u8(register);
    match catch_var {
        Some(CatchVar::Register(_)) => {
            sink.ptr_value(0);
        },
        Some(CatchVar::Variable(name)) => {
            sink.string(name.as_str());
        },
        None => {
            let empty = String::new();
            sink.string(empty.as_str());
        },
    }
    (try_patch, catch_patch, finally_patch)
}

/// An instruction without a body, its distances not yet filled in.
fn encode_flat(sink: &mut Sink, insn: &Instruction) -> (fix: EncodeFix)
    requires
        old(sink)@.ok(),
        !(insn is DefineFunction),
        !(insn is DefineFunction2),
    ensures
        final(sink)@ == encode::flat_insn(old(sink)@, insn@),
        final(sink)@.ok(),
        final(sink).arena.ptr_size == old(sink).arena.ptr_size,
        names_slots(fix, insn@, old(sink)@.len(), old(sink)@.ps()),
{
    broadcast use {out::ext_put, out::ext_facts};

    reveal(encode::flat_insn);
    proof {
        layout::lemma_round_up(sink@.len() + 1, sink@.ps());
        out::ok_ps(sink@);
    }
    match insn {
        Instruction::End => {
            sink.u8(opcode::END);
        },
        Instruction::Simple(op) => {
            sink.u8(*op);
        },
        Instruction::GotoFrame(frame) => {
            sink.u8(opcode::GOTO_FRAME);
            sink.align_ptr();
            sink.i32(*frame);
        },
        Instruction::GetUrl { url, target } => {
            sink.u8(opcode::GET_URL);
            sink.align_ptr();
            sink.string(url.as_str());
            sink.string(target.as_str());
        },
        Instruction::StoreRegister(register) => {
            sink.u8(opcode::STORE_REGISTER);
            sink.align_ptr();
            sink.i32(*register);
        },
        Instruction::SetTarget(target) => {
            sink.u8(opcode::SET_TARGET);
            sink.align_ptr();
            sink.string(target.as_str());
        },
        Instruction::GotoLabel(label) => {
            sink.u8(opcode::GOTO_LABEL);
            sink.align_ptr();
            sink.string(label.as_str());
        },
        Instruction::GotoFrame2 { play } => {
            sink.u8(opcode::GOTO_FRAME2);
            sink.align_ptr();
            sink.i32(
                if *play {
                    1
                } else {
                    0
                },
            );
        },
        Instruction::Push(items) => {
            encode_pool_items(sink, opcode::PUSH, items);
        },
        Instruction::DefineDictionary(items) => {
            encode_pool_items(sink, opcode::DEFINE_DICTIONARY, items);
        },
        Instruction::Try { has_catch, has_finally, catch_var, .. } => {
            let p = encode_try(sink, *has_catch, *has_finally, catch_var);
            return EncodeFix::Three(p.0, p.1, p.2);
        },
        Instruction::With { .. } => {
            sink.u8(opcode::WITH);
            let ghost a = sink@;
            sink.align_ptr();
            proof {
                out::ext_align(a, a.ps());
                out::ext_facts(a, a.align_ptr());
                out::ext_align(a.align_ptr(), a.ps());
            }
            let p = sink.ptr_patch();
            return EncodeFix::One(p);
        },
        Instruction::BranchAlways { .. } => {
            sink.u8(opcode::BRANCH_ALWAYS);
            let ghost a = sink@;
            sink.align_ptr();
            proof {
                out::ext_align(a, a.ps());
            }
            let p = sink.i32_patch();
            return EncodeFix::One(p);
        },
        Instruction::BranchIfTrue { .. } => {
            sink.u8(opcode::BRANCH_IF_TRUE);
            let ghost a = sink@;
            sink.align_ptr();
            proof {
                out::ext_align(a, a.ps());
            }
            let p = sink.i32_patch();
            return EncodeFix::One(p);
        },
        Instruction::BranchIfFalse { .. } => {
            sink.u8(opcode::EA_BRANCH_IF_FALSE);
            let ghost a = sink@;
            sink.align_ptr();
            proof {
                out::ext_align(a, a.ps());
            }
            let p = sink.i32_patch();
            return EncodeFix::One(p);
        },
        Instruction::TraceStart(v) => {
            sink.u8(opcode::EA_TRACE_START);
            sink.u32(*v);
        },
        Instruction::PushString { kind, value } => {
            sink.u8(kind.opcode());
            sink.align_ptr();
            sink.string(value.as_str());
        },
        Instruction::DictRef { kind, index } => {
            sink.u8(kind.opcode());
            if kind.is_word() {
                sink.u16(*index);
            } else {
                sink.u8(*index as u8);
            }
        },
        Instruction::PushFloat(v) => {
            sink.u8(0xB4);
            sink.u32(*v);
        },
        Instruction::PushByte(v) => {
            sink.u8(0xB5);
            sink.u8(*v);
        },
        Instruction::PushWord(v) => {
            sink.u8(0xB6);
            sink.u16(*v);
        },
        Instruction::PushDWord(v) => {
            sink.u8(0xB7);
            sink.u32(*v);
        },
        Instruction::PushRegister(v) => {
            sink.u8(opcode::EA_PUSH_REGISTER);
            sink.u8(*v);
        },
        Instruction::DefineFunction { .. } => {},
        Instruction::DefineFunction2 { .. } => {},
    }
    EncodeFix::Nothing
}

/// What precedes the size of a DefineFunction body.
fn encode_function_head(sink: &mut Sink, name: &String, params: &Vec<String>)
    requires
        old(sink)@.ok(),
    ensures
        final(sink)@ == encode::function_head(old(sink)@, name@, model::names(params@)),
        final(sink)@.ok(),
        final(sink).arena.ptr_size == old(sink).arena.ptr_size,
{
    sink.u8(opcode::DEFINE_FUNCTION);
    sink.align_ptr();
    sink.string(name.as_str());
    proof {
        bytes::lemma_powers();
    }
    sink.align(4);
    sink.i32(params.len() as i32);
    if params.len() == 0 {
        sink.ptr_value(0);
    } else {
        sink.string_array(duplicate_names(params));
    }
    proof {
        bytes::lemma_powers();
    }
    sink.align(4);
}

/// What precedes the size of a DefineFunction2 body.
fn encode_function2_head(
    sink: &mut Sink,
    name: &String,
    params: &Vec<(u32, String)>,
    register_count: i16,
    flags: i16,
)
    requires
        old(sink)@.ok(),
    ensures
        final(sink)@ == encode::function2_head(
            old(sink)@,
            name@,
            model::reg_names(params@),
            register_count,
            flags,
        ),
        final(sink)@.ok(),
        final(sink).arena.ptr_size == old(sink).arena.ptr_size,
{
    sink.u8(opcode::DEFINE_FUNCTION2);
    sink.align_ptr();
    sink.string(name.as_str());
    proof {
        bytes::lemma_powers();
    }
    sink.align(4);
    sink.i32(params.len() as i32);
    sink.i16(register_count);
    sink.i16(flags);
    if params.len() == 0 {
        sink.ptr_value(0);
    } else {
        sink.reg_params(duplicate_params(params));
    }
    proof {
        bytes::lemma_powers();
    }
    sink.align(4);
}

/// The size of a body, its scratch, and the body.
fn encode_sized_body(sink: &mut Sink, body: &ActionStream) -> (r: Result<(), Error>)
    requires
        old(sink)@.ok(),
    ensures
        final(sink)@.ok(),
        final(sink).arena.ptr_size == old(sink).arena.ptr_size,
        match r {
            Ok(_) => {
                &&& encode::block_err(body@) is None
                &&& final(sink)@ == encode::sized_body(old(sink)@, body@)
            },
            Err(e) => encode::block_err(body@) == Some(e@),
        },
    decreases body, 1int,
{
    proof {
        encode::lemma_sized_body(sink@, body@);
        assert(body@ =~= model::views(body.instructions@));
    }
    let size_patch = sink.i32_patch();
    encode_func_pool(sink);
    let body_start: u64 = sink.len();
    let ghost s = sink@;
    encode_block(sink, &body.instructions, false)?;
    proof {
        out::ext_facts(s, sink@);
    }
    let size: i32 = (sink.len() - body_start) as i32;
    sink.patch_i32(size_patch, size);
    Ok(())
}

/// One instruction, its distances not yet filled in.
fn encode_insn(sink: &mut Sink, insn: &Instruction) -> (r: Result<EncodeFix, Error>)
    requires
        old(sink)@.ok(),
    ensures
        final(sink)@.ok(),
        final(sink).arena.ptr_size == old(sink).arena.ptr_size,
        match r {
            Ok(fix) => {
                &&& encode::insn_err(insn@) is None
                &&& final(sink)@ == encode::insn_out(old(sink)@, insn@)
                &&& names_slots(fix, insn@, old(sink)@.len(), old(sink)@.ps())
            },
            Err(e) => encode::insn_err(insn@) == Some(e@),
        },
    decreases insn, 0int,
{
    match insn {
        Instruction::DefineFunction { name, params, body } => {
            encode_function_head(sink, name, params);
            encode_sized_body(sink, body)?;
            Ok(EncodeFix::Nothing)
        },
        Instruction::DefineFunction2 { name, params, register_count, flags, body } => {
            encode_function2_head(sink, name, params, *register_count, *flags);
            encode_sized_body(sink, body)?;
            Ok(EncodeFix::Nothing)
        },
        _ => Ok(encode_flat(sink, insn)),
    }
}

fn saturating_index(a: usize, b: usize) -> (s: usize)
    ensures
        s == encode::usat(a as int, b as int),
{
    if b > usize::MAX - a {
        usize::MAX
    } else {
        a + b
    }
}

/// The offset of the instruction at `index`.
fn bound(boundaries: &Vec<u64>, index: usize) -> (r: Result<u64, Error>)
    requires
        boundaries@.len() > 0,
    ensures
        match r {
            Ok(b) => {
                &&& encode::index_err(index as int, (boundaries@.len() - 1) as nat) is None
                &&& index < boundaries@.len()
                &&& b == boundaries@[index as int]
            },
            Err(e) => encode::index_err(index as int, (boundaries@.len() - 1) as nat) == Some(e@),
        },
{
    if index < boundaries.len() {
        Ok(boundaries[index])
    } else {
        Err(Error::BranchIndexOutOfRange { index, count: boundaries.len() - 1 })
    }
}

/// A distance of 4 bytes.
fn short_delta(to: u64, from: u64) -> (d: i32)
    ensures
        d == (to - from) as i32,
{
    (to as i128 - from as i128) as i32
}

/// The counterparts of a list of offsets.
pub open spec fn offsets(b: Seq<u64>) -> Seq<int> {
    Seq::new(b.len(), |i: int| b[i] as int)
}

/// Distances and sizes that the `i`-th instruction waits for.
fn encode_fix(sink: &mut Sink, insn: &Instruction, fix: &EncodeFix, boundaries: &Vec<u64>, i: usize) -> (r:
    Result<(), Error>)
    requires
        old(sink)@.ok(),
        i + 1 < boundaries@.len(),
        names_slots(*fix, insn@, boundaries@[i as int] as int, old(sink)@.ps()),
        encode::open_slots(old(sink)@, insn@, boundaries@[i as int] as int),
    ensures
        final(sink)@.ok(),
        final(sink).arena.ptr_size == old(sink).arena.ptr_size,
        match r {
            Ok(_) => {
                &&& encode::target_err(insn@, i as int, (boundaries@.len() - 1) as nat) is None
                &&& final(sink)@ == encode::fill_one(
                    old(sink)@,
                    insn@,
                    i as int,
                    offsets(boundaries@),
                )
            },
            Err(e) => encode::target_err(insn@, i as int, (boundaries@.len() - 1) as nat) == Some(
                e@,
            ),
        },
{
    broadcast use out::fill_others;

    reveal(encode::open_slots);
    let count: usize = boundaries.len();
    let base: u64 = boundaries[i + 1];
    match (insn, fix) {
        (Instruction::BranchAlways { target }, EncodeFix::One(patch)) => {
            let to: u64 = bound(boundaries, *target)?;
            sink.patch_i32(*patch, short_delta(to, base));
        },
        (Instruction::BranchIfTrue { target }, EncodeFix::One(patch)) => {
            let to: u64 = bound(boundaries, *target)?;
            sink.patch_i32(*patch, short_delta(to, base));
        },
        (Instruction::BranchIfFalse { target }, EncodeFix::One(patch)) => {
            let to: u64 = bound(boundaries, *target)?;
            sink.patch_i32(*patch, short_delta(to, base));
        },
        (Instruction::With { end_target }, EncodeFix::One(patch)) => {
            let to: u64 = bound(boundaries, *end_target)?;
            let delta: u64 = (to as i128 - base as i128) as u64;
            sink.patch_ptr(*patch, delta);
        },
        (
            Instruction::Try { try_count, catch_count, finally_count, .. },
            EncodeFix::Three(p1, p2, p3),
        ) => {
            let t: usize = saturating_index(i + 1, *try_count);
            let c: usize = saturating_index(t, *catch_count);
            let f: usize = saturating_index(c, *finally_count);
            let try_end: u64 = bound(boundaries, t)?;
            let ghost s0 = sink@;
            proof {
                out::fill_ok(
                    s0,
                    p1.pos(),
                    4,
                    (((try_end - base) as i32) as u32) as nat,
                );
            }
            sink.patch_i32(*p1, short_delta(try_end, base));
            let catch_end: u64 = bound(boundaries, c)?;
            sink.patch_i32(*p2, short_delta(catch_end, try_end));
            let finally_end: u64 = bound(boundaries, f)?;
            sink.patch_i32(*p3, short_delta(finally_end, catch_end));
        },
        _ => {},
    }
    Ok(())
}

/// Encode a block. Push items append to the constants in encounter order (the
/// engine requires globally sequential constant indices).
#[verifier::rlimit(40)]
fn encode_block(sink: &mut Sink, instructions: &Vec<Instruction>, end_if_empty: bool) -> (r: Result<
    (),
    Error,
>)
    requires
        old(sink)@.ok(),
    ensures
        final(sink)@.ok(),
        final(sink).arena.ptr_size == old(sink).arena.ptr_size,
        match r {
            Ok(_) => {
                &&& encode::block_err(model::views(instructions@)) is None
                &&& final(sink)@ == encode::block(
                    old(sink)@,
                    model::views(instructions@),
                    end_if_empty,
                )
            },
            Err(e) => encode::block_err(model::views(instructions@)) == Some(e@),
        },
    decreases instructions, 0int,
{
    let ghost o = sink@;
    let ghost v = model::views(instructions@);
    if instructions.len() == 0 && end_if_empty {
        sink.u8(opcode::END);
        return Ok(());
    }
    let mut boundaries: Vec<u64> = Vec::new();
    let mut fixes: Vec<EncodeFix> = Vec::new();
    let mut i: usize = 0;
    while i < instructions.len()
        invariant
            i <= instructions@.len(),
            o == old(sink)@,
            o.ok(),
            v == model::views(instructions@),
            sink@ == encode::insns_out(o, v, i as nat),
            sink@.ok(),
            sink@.ps() == o.ps(),
            sink.arena.ptr_size == old(sink).arena.ptr_size,
            encode::bodies_err(v, i as nat) is None,
            boundaries@.len() == i,
            fixes@.len() == i,
            forall|k: int|
                0 <= k < i ==> #[trigger] boundaries@[k] == encode::insns_out(
                    o,
                    v,
                    k as nat,
                ).len(),
            forall|k: int|
                0 <= k < i ==> names_slots(
                    #[trigger] fixes@[k],
                    v[k],
                    encode::insns_out(o, v, k as nat).len(),
                    o.ps(),
                ),
        decreases instructions@.len() - i,
    {
        boundaries.push(sink.len());
        assert(decreases_to!(instructions => instructions@));
        let fix = match encode_insn(sink, &instructions[i]) {
            Ok(fix) => fix,
            Err(e) => {
                proof {
                    encode::lemma_bodies_sticky(v, (i + 1) as nat, v.len());
                }
                return Err(e);
            },
        };
        fixes.push(fix);
        i = i + 1;
        proof {
            encode::lemma_insns(o, v, i as nat);
            out::ext_facts(o, sink@);
        }
    }
    boundaries.push(sink.len());
    let ghost a = sink@;
    let ghost b = encode::bounds(o, v);
    proof {
        assert(offsets(boundaries@) =~= b);
        encode::lemma_fill_all(o, v, 0);
    }
    let mut i: usize = 0;
    while i < instructions.len()
        invariant
            i <= instructions@.len(),
            o == old(sink)@,
            o.ok(),
            v == model::views(instructions@),
            a == encode::insns_out(o, v, v.len()),
            b == encode::bounds(o, v),
            offsets(boundaries@) == b,
            boundaries@.len() == v.len() + 1,
            fixes@.len() == v.len(),
            sink@ == encode::fill_all(a, v, b, i as nat),
            sink@.ok(),
            sink.arena.ptr_size == old(sink).arena.ptr_size,
            encode::bodies_err(v, v.len()) is None,
            encode::targets_err(v, i as nat) is None,
            forall|k: int|
                0 <= k < v.len() ==> names_slots(
                    #[trigger] fixes@[k],
                    v[k],
                    encode::insns_out(o, v, k as nat).len(),
                    o.ps(),
                ),
        decreases instructions@.len() - i,
    {
        proof {
            encode::lemma_fill_all(o, v, i as nat);
            assert(v[i as int] == instructions@[i as int]@);
            assert(b[i as int] == boundaries@[i as int]);
            assert(names_slots(
                fixes@[i as int],
                v[i as int],
                encode::insns_out(o, v, i as nat).len(),
                o.ps(),
            ));
        }
        match encode_fix(sink, &instructions[i], &fixes[i], &boundaries, i) {
            Ok(_) => {},
            Err(e) => {
                proof {
                    encode::lemma_targets_sticky(v, (i + 1) as nat, v.len());
                }
                return Err(e);
            },
        }
        i = i + 1;
    }
    Ok(())
}

/// Encode a stream; returns its start offset.
pub fn encode_stream(sink: &mut Sink, stream: &ActionStream) -> (r: Result<u64, Error>)
    requires
        old(sink)@.ok(),
    ensures
        final(sink)@.ok(),
        final(sink).arena.ptr_size == old(sink).arena.ptr_size,
        match r {
            Ok(start) => {
                &&& encode::block_err(stream@) is None
                &&& start == old(sink)@.len()
                &&& final(sink)@ == encode::stream(old(sink)@, stream@)
            },
            Err(e) => encode::block_err(stream@) == Some(e@),
        },
{
    assert(stream@ =~= model::views(stream.instructions@));
    let start: u64 = sink.len();
    encode_block(sink, &stream.instructions, true)?;
    Ok(start)
}

} // verus!
