use apttools::apt::actions::{ActionStream, DictRefKind, Instruction, PushStringKind};
use apttools::apt::opcode;
use apttools::apt::types::Value;
use apttools::apt_convert::bytecode::{apt_to_swf_actions, is_ea_shorthand, swf_to_apt_actions};
use apttools::apt_convert::floats::stream_floats;
use apttools::apt_convert::narrow::narrow;
use apttools::apt_convert::singles::{from_fraction, from_signed};
use apttools::apt_convert::{Error, ReadFault};

fn stream(instructions: Vec<Instruction>) -> ActionStream {
    ActionStream { instructions }
}

fn texts(s: &ActionStream) -> Vec<(u32, String)> {
    stream_floats(s).into_iter().map(|b| (b, format!("{}", f32::from_bits(b)))).collect()
}

fn lower(s: &ActionStream) -> Vec<u8> {
    apt_to_swf_actions(s, &texts(s)).unwrap()
}

#[test]
fn doubles_are_narrowed_like_casts() {
    let mut v = vec![
        0.0f64,
        -0.0,
        1.0,
        -1.5,
        0.1,
        1.0 / 3.0,
        f64::MAX,
        f64::MIN_POSITIVE,
        f64::INFINITY,
        f64::NEG_INFINITY,
        f32::MAX as f64,
        3.402_823_567e38,
        1e-40,
        7e-46,
        8e-46,
        1.401_298_464_324_817e-45,
        16_777_217.0,
        16_777_219.0,
    ];
    let mut x = 1.234_567_890_123e-50f64;
    for _ in 0..300 {
        x *= -2.137;
        v.push(x);
    }
    for d in v {
        assert_eq!(narrow(d.to_bits()), (d as f32).to_bits(), "{d:e}");
    }
    assert!(f32::from_bits(narrow(f64::NAN.to_bits())).is_nan());
}

#[test]
fn fractions_are_rounded_like_quotients() {
    for n in [0u32, 1, 3, 19, 20, 12_345_679, 0x00FF_FFFF, 0x0100_0001, u32::MAX] {
        for d in [1u32, 3, 7, 20, 256, 1000, 65536] {
            assert_eq!(from_fraction(n, d), ((n as f64 / d as f64) as f32).to_bits(), "{n}/{d}");
        }
    }
    for n in [-1i32, -20, i32::MIN, i32::MAX, 77] {
        assert_eq!(from_signed(n, 20), ((n as f64 / 20.0) as f32).to_bits());
    }
}

#[test]
fn shorthands_become_standard_actions() {
    assert!(is_ea_shorthand(opcode::EA_PUSH_ZERO));
    assert!(!is_ea_shorthand(opcode::ADD));
    let s = stream(vec![
        Instruction::Simple(opcode::EA_PUSH_ZERO),
        Instruction::Simple(opcode::EA_PUSH_THIS),
        Instruction::DictRef { kind: DictRefKind::CallMethodPop, index: 4 },
        Instruction::PushString { kind: PushStringKind::GetVar, value: "x".to_owned() },
        Instruction::Simple(opcode::ADD),
        Instruction::End,
    ]);
    assert_eq!(
        lower(&s),
        [
            0x96, 5, 0, 7, 0, 0, 0, 0, // push 0
            0x96, 6, 0, 0, b't', b'h', b'i', b's', 0, // push "this"
            0x96, 2, 0, 8, 4, // push the constant
            0x52, 0x17, // call it, drop the result
            0x96, 3, 0, 0, b'x', 0, 0x1C, // push "x", get the variable
            0x0A, 0,
        ]
    );
}

fn plain() -> ActionStream {
    stream(vec![
        Instruction::DefineDictionary(vec![
            Value::String("a".to_owned()),
            Value::String("caf\u{e9}".to_owned()),
        ]),
        Instruction::DefineFunction2 {
            name: "f".to_owned(),
            params: vec![(1, "x".to_owned())],
            register_count: 2,
            flags: 42,
            body: stream(vec![
                Instruction::Push(vec![Value::Register(1)]),
                Instruction::BranchIfTrue { target: 3 },
                Instruction::Simple(0x17),
            ]),
        },
        Instruction::DefineFunction {
            name: "g".to_owned(),
            params: vec!["p".to_owned(), "q".to_owned()],
            body: stream(vec![Instruction::Simple(0x3E)]),
        },
        Instruction::Push(vec![
            Value::String("s".to_owned()),
            Value::Boolean(true),
            Value::Integer(-5),
            Value::Float(1.5f32.to_bits()),
            Value::Lookup(1),
            Value::Undefined,
        ]),
        Instruction::With { end_target: 6 },
        Instruction::GetUrl { url: "u".to_owned(), target: "t".to_owned() },
        Instruction::GotoFrame(9),
        Instruction::GotoLabel("l".to_owned()),
        Instruction::SetTarget("t".to_owned()),
        Instruction::GotoFrame2 { play: true },
        Instruction::StoreRegister(2),
        Instruction::BranchIfTrue { target: 3 },
        Instruction::BranchAlways { target: 13 },
        Instruction::End,
    ])
}

#[test]
fn plain_streams_survive_a_round_trip() {
    let s = plain();
    assert_eq!(swf_to_apt_actions(&lower(&s)).unwrap(), s);
}

#[test]
fn lowered_streams_are_accepted_by_another_reader() {
    let mut all = plain();
    all.instructions.insert(0, Instruction::PushWord(7));
    all.instructions.insert(0, Instruction::Simple(opcode::EA_PUSH_ZERO));
    let code = lower(&all);
    let mut reader = swf::avm1::read::Reader::new(&code, 8);
    let mut n = 0;
    loop {
        let action = reader.read_action().unwrap();
        n += 1;
        if matches!(action, swf::avm1::types::Action::End) {
            break;
        }
    }
    assert_eq!(n, all.instructions.len());
}

#[test]
fn numbers_in_constant_pools_become_text() {
    let s = stream(vec![
        Instruction::DefineDictionary(vec![
            Value::Float(2.5f32.to_bits()),
            Value::Integer(-3),
            Value::Boolean(true),
            Value::Undefined,
        ]),
        Instruction::End,
    ]);
    assert_eq!(stream_floats(&s), [2.5f32.to_bits()]);
    assert_eq!(
        swf_to_apt_actions(&lower(&s)).unwrap().instructions[0],
        Instruction::DefineDictionary(
            ["2.5", "-3", "true", "undefined"].iter().map(|t| Value::String(t.to_string())).collect()
        )
    );
    assert_eq!(apt_to_swf_actions(&s, &[]), Err(Error::NoFloatText(2.5f32.to_bits())));
}

#[test]
fn what_has_no_translation_is_refused() {
    let s = stream(vec![Instruction::Try {
        try_count: 0,
        catch_count: 0,
        finally_count: 0,
        has_catch: false,
        has_finally: false,
        catch_var: None,
    }]);
    assert_eq!(apt_to_swf_actions(&s, &[]), Err(Error::Unsupported));
    let s = stream(vec![Instruction::GotoLabel("\u{2192}".to_owned())]);
    assert_eq!(apt_to_swf_actions(&s, &[]), Err(Error::NonLatin1("\u{2192}".to_owned())));
    let s = stream(vec![Instruction::BranchAlways { target: 2 }]);
    assert_eq!(apt_to_swf_actions(&s, &[]), Err(Error::UnresolvedBranch(2)));
}

#[test]
fn malformed_code_is_refused() {
    let fault = |d: &[u8]| match swf_to_apt_actions(d) {
        Err(Error::SwfRead(f)) => Some(f),
        _ => None,
    };
    assert_eq!(fault(&[0x96, 1]), Some(ReadFault::TruncatedLength));
    assert_eq!(fault(&[0x96, 9, 0, 1]), Some(ReadFault::TruncatedPayload));
    assert_eq!(fault(&[0x81, 1, 0, 1]), Some(ReadFault::ShortOperand));
    assert_eq!(fault(&[0x8C, 1, 0, b'x']), Some(ReadFault::UnterminatedString));
    assert_eq!(fault(&[0x96, 1, 0, 99]), Some(ReadFault::UnknownPushType(99)));
    assert!(swf_to_apt_actions(&[]).is_ok());
}

#[test]
fn shorthands_are_read_as_what_they_stand_for() {
    let s = stream(vec![
        Instruction::PushString { kind: PushStringKind::GetVar, value: "x".to_owned() },
        Instruction::BranchIfFalse { target: 3 },
        Instruction::DictRef { kind: DictRefKind::CallFuncPop, index: 300 },
        Instruction::End,
    ]);
    let read = swf_to_apt_actions(&lower(&s)).unwrap();
    assert_eq!(
        read.instructions,
        vec![
            Instruction::Push(vec![Value::String("x".to_owned())]),
            Instruction::Simple(opcode::GET_VARIABLE),
            Instruction::Simple(opcode::NOT),
            Instruction::BranchIfTrue { target: 7 },
            Instruction::Push(vec![Value::Lookup(300)]),
            Instruction::Simple(opcode::CALL_FUNCTION),
            Instruction::Simple(opcode::POP),
            Instruction::End,
        ]
    );
}
