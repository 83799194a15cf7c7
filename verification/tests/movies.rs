use apttools::apt::actions::{
    decode_stream, encode_stream, opcode_name, ActionStream, CatchVar, DictRefKind, Instruction,
    PushStringKind,
};
use apttools::apt::error::Error;
use apttools::apt::io::{Arena, Cursor, Deferred};
use apttools::apt::sink::Sink;
use apttools::apt::streams::{all_streams, character_streams, count_kind, disassemble, Line, StreamLabel};
use apttools::apt::types::{
    Button, ButtonAction, ButtonRecord, ButtonSounds, Character, CharacterSlot, Control,
    EventAction, Export, Filter, FloatCxForm, Font, Frame, GlyphEntry, Header, Import, Matrix,
    Morph, Movie, PackedCxForm, PlaceObject, PtrSize, Rect, Shape, Sprite, StaticText,
    StaticTextRecord, Text, TextAlignment, Value,
};
use apttools::apt::write::WriteOptions;
use apttools::apt::constfile::ConstFile;
use apttools::apt::{base_path, AptFile};
use apttools::apt_aux::ru::RuFormat;

fn small() -> AptFile {
    AptFile {
        header: Header {
            ptr_size: PtrSize::Four,
            decoupled: false,
            swf_version: 6,
            raw_tag: *b"Apt Data:0:6:4\0\0",
        },
        const_magic: [0; 20],
        movie: Movie {
            frames: vec![Frame { controls: vec![Control::FrameLabel("start".to_owned())] }],
            characters: vec![CharacterSlot::Root],
            width: 640,
            height: 480,
            ms_per_frame: 33,
            imports: vec![],
            exports: vec![],
        },
    }
}

fn code() -> ActionStream {
    ActionStream {
        instructions: vec![
            Instruction::DefineDictionary(vec![
                Value::String("gotoAndPlay".to_owned()),
                Value::Float(1.5f32.to_bits()),
            ]),
            Instruction::DefineFunction2 {
                name: "onPress".to_owned(),
                params: vec![(2, "who".to_owned())],
                register_count: 3,
                flags: 0x2A,
                body: ActionStream {
                    instructions: vec![
                        Instruction::PushRegister(1),
                        Instruction::BranchIfFalse { target: 3 },
                        Instruction::DictRef { kind: DictRefKind::CallMethodPop, index: 0 },
                    ],
                },
            },
            Instruction::DefineFunction {
                name: String::new(),
                params: vec!["a".to_owned(), "b".to_owned()],
                body: ActionStream { instructions: vec![Instruction::Simple(0x3E)] },
            },
            Instruction::Push(vec![
                Value::Undefined,
                Value::String("caf\u{e9}".to_owned()),
                Value::Register(2),
                Value::Boolean(true),
                Value::Integer(-7),
                Value::Lookup(1),
            ]),
            Instruction::Try {
                try_count: 1,
                catch_count: 1,
                finally_count: 0,
                has_catch: true,
                has_finally: false,
                catch_var: Some(CatchVar::Variable("e".to_owned())),
            },
            Instruction::Simple(0x17),
            Instruction::Simple(0x17),
            Instruction::With { end_target: 9 },
            Instruction::GetUrl { url: "FSCommand:x".to_owned(), target: "_root".to_owned() },
            Instruction::GotoFrame(3),
            Instruction::GotoLabel("start".to_owned()),
            Instruction::SetTarget("clip".to_owned()),
            Instruction::GotoFrame2 { play: true },
            Instruction::StoreRegister(1),
            Instruction::PushString { kind: PushStringKind::GetMember, value: "x".to_owned() },
            Instruction::PushFloat(0x3FC0_0000),
            Instruction::PushByte(200),
            Instruction::PushWord(40000),
            Instruction::PushDWord(0xDEAD_BEEF),
            Instruction::TraceStart(7),
            Instruction::BranchIfTrue { target: 0 },
            Instruction::BranchAlways { target: 22 },
            Instruction::End,
        ],
    }
}

fn end() -> ActionStream {
    ActionStream { instructions: vec![Instruction::End] }
}

fn rich() -> AptFile {
    let mut f = small();
    let place = PlaceObject {
        depth: 3,
        character_id: Some(2),
        matrix: Some(Matrix::default()),
        cxform: Some(PackedCxForm { scale: 0x8040_2010, bias: 1 }),
        ratio: Some(0.5f32.to_bits()),
        name: Some("button".to_owned()),
        clip_depth: Some(9),
        clip_actions: Some(vec![EventAction { triggers: 0x20000, key_code: 13, actions: code() }]),
        blend_mode: Some(2),
        filters: vec![
            Filter::DropShadow {
                color: 0xFF00_00FF,
                blur_x: 1,
                blur_y: 2,
                angle: 3,
                distance: 4,
                strength: 5,
                flags: 6,
            },
            Filter::Blur { blur_x: 7, blur_y: 8, flags: 9 },
            Filter::Glow { color: 1, blur_x: 2, blur_y: 3, strength: 4, flags: 5 },
            Filter::Bevel {
                highlight_color: 1,
                shadow_color: 2,
                blur_x: 3,
                blur_y: 4,
                angle: 5,
                distance: 6,
                strength: 7,
                flags: 8,
            },
            Filter::GradientGlow {
                is_bevel: true,
                colors: vec![1, 2],
                ratios: vec![0, 255],
                blur_x: 1,
                blur_y: 2,
                angle: 3,
                distance: 4,
                strength: 5,
                flags: 6,
            },
            Filter::ColorMatrix { values: [0x3F80_0000; 20] },
        ],
        ..Default::default()
    };
    let bounds = Rect { left: 0, top: 0, right: 100f32.to_bits(), bottom: 50f32.to_bits() };
    f.movie.characters = vec![
        CharacterSlot::Root,
        CharacterSlot::Character(Character::Shape(Shape { bounds, bitmap_character_id: None })),
        CharacterSlot::Character(Character::Button(Button {
            is_menu: true,
            hit_test_bounds: bounds,
            hit_test_vertices: vec![(0, 0), (1, 1), (2, 2)],
            hit_test_triangles: vec![[0, 1, 2]],
            records: vec![ButtonRecord {
                states: 15,
                character_id: 1,
                layer: 1,
                matrix: Matrix::default(),
                cxform: FloatCxForm::default(),
            }],
            actions: vec![ButtonAction { conditions: 8, actions: code() }],
            sounds: Some(ButtonSounds {
                over_up_to_idle: 0,
                idle_to_over_up: 5,
                over_up_to_over_down: 0,
                over_down_to_over_up: 0,
            }),
        })),
        CharacterSlot::Character(Character::Text(Text {
            bounds,
            font_id: 4,
            alignment: TextAlignment::Justify,
            color: 0xFFFF_FFFF,
            font_height: 12f32.to_bits(),
            read_only: true,
            multiline: false,
            word_wrap: true,
            initial_text: "Hello".to_owned(),
            variable: "_root.label".to_owned(),
        })),
        CharacterSlot::Character(Character::Font(Font { name: "Arial".to_owned(), glyphs: vec![1, 1] })),
        CharacterSlot::Character(Character::Sound),
        CharacterSlot::Empty,
        CharacterSlot::Character(Character::Sprite(Sprite {
            frames: vec![
                Frame { controls: vec![Control::PlaceObject(place), Control::Action(code())] },
                Frame {
                    controls: vec![
                        Control::RemoveObject { depth: 3 },
                        Control::BackgroundColor(0xFF11_2233),
                        Control::StartSound { sound_id: 5 },
                        Control::StartSoundStream { sound_id: 5 },
                        Control::InitAction { sprite_id: 7, actions: end() },
                    ],
                },
            ],
        })),
        CharacterSlot::Character(Character::Morph(Morph { start_character_id: 1, end_character_id: 1 })),
        CharacterSlot::Character(Character::StaticText(StaticText {
            bounds,
            matrix: Matrix::default(),
            records: vec![StaticTextRecord {
                font_id: 4,
                cxform: FloatCxForm::default(),
                x_offset: 1,
                y_offset: 2,
                scale: 3,
                glyphs: vec![GlyphEntry { index: 0, advance: 5 }],
            }],
        })),
        CharacterSlot::Character(Character::Bitmap),
        CharacterSlot::Character(Character::Nothing),
        CharacterSlot::Character(Character::Video),
    ];
    f.movie.frames[0].controls.push(Control::Action(code()));
    f.movie.imports =
        vec![Import { movie: "MenuExport".to_owned(), name: "btn".to_owned(), character_id: 6 }];
    f.movie.exports = vec![Export { name: "panel".to_owned(), character_id: 7 }];
    f
}

#[test]
fn a_small_movie_survives_every_layout() {
    let a = small();
    for ptr in [PtrSize::Four, PtrSize::Eight] {
        for decoupled in [false, true] {
            let (apt, cst) = a.write(&WriteOptions::new(ptr, decoupled, 6)).unwrap();
            let b = AptFile::read(&apt, &cst).unwrap();
            assert_eq!(b.header.ptr_size, ptr);
            assert_eq!(b.header.decoupled, decoupled);
            assert_eq!(a.movie, b.movie);
        }
    }
}

#[test]
fn semantic_roundtrip() {
    let a = rich();
    let (apt, cst) = a.write(&WriteOptions::new(PtrSize::Four, false, 6)).unwrap();
    let b = AptFile::read(&apt, &cst).unwrap();
    assert_eq!(a.movie, b.movie);
    // The constants come out in the same order when the movie is written again.
    let (apt2, cst2) = b.write(&WriteOptions::new(PtrSize::Four, false, 6)).unwrap();
    assert_eq!(apt, apt2);
    let k = ConstFile::read(&cst, PtrSize::Four).unwrap();
    let k2 = ConstFile::read(&cst2, PtrSize::Four).unwrap();
    assert_eq!(k.constants, k2.constants);
    // As they are found walking the movie: the first is that of the first stream.
    assert_eq!(k.constants[0], Value::String("gotoAndPlay".to_owned()));
}

#[test]
fn reemit_as_64bit_preserves_model() {
    let a = rich();
    let (apt, cst) = a.write(&WriteOptions::new(PtrSize::Four, false, 6)).unwrap();
    let b = AptFile::read(&apt, &cst).unwrap();
    let (apt64, cst64) = b.write(&WriteOptions::new(PtrSize::Eight, false, 6)).unwrap();
    let c = AptFile::read(&apt64, &cst64).unwrap();
    assert_eq!(c.header.ptr_size, PtrSize::Eight);
    assert!(!c.header.decoupled);
    assert_eq!(b.movie, c.movie, "movie changed re-emitting as 64-bit");
}

#[test]
fn reemit_as_decoupled_preserves_model() {
    let (apt, cst) = rich().write(&WriteOptions::new(PtrSize::Four, false, 6)).unwrap();
    let a = AptFile::read(&apt, &cst).unwrap();
    for ptr in [PtrSize::Four, PtrSize::Eight] {
        let (apt, cst) = a.write(&WriteOptions::new(ptr, true, a.header.swf_version)).unwrap();
        let b = AptFile::read(&apt, &cst).unwrap();
        assert!(b.header.decoupled);
        assert_eq!(b.header.ptr_size, ptr);
        assert_eq!(b.movie.frames, a.movie.frames);
        assert_eq!(b.movie.characters.len(), a.movie.characters.len());
        // Only shapes differ: they carry the backing bitmap, and have none.
        for (x, y) in b.movie.characters.iter().zip(&a.movie.characters) {
            match (x, y) {
                (
                    CharacterSlot::Character(Character::Shape(s)),
                    CharacterSlot::Character(Character::Shape(t)),
                ) => assert_eq!(s.bounds, t.bounds),
                _ => assert_eq!(x, y),
            }
        }
    }
}

#[test]
fn files_come_back_whole() {
    for ptr in [PtrSize::Four, PtrSize::Eight] {
        for decoupled in [false, true] {
            let (apt, cst) = rich().write(&WriteOptions::new(ptr, decoupled, 6)).unwrap();
            let a = AptFile::read(&apt, &cst).unwrap();
            let (apt, cst) = a.write(&WriteOptions::from_header(&a.header)).unwrap();
            let b = AptFile::read(&apt, &cst).unwrap();
            assert_eq!(a, b);
        }
    }
}

#[test]
fn write_is_deterministic() {
    let opts = WriteOptions::new(PtrSize::Eight, true, 8);
    assert_eq!(rich().write(&opts).unwrap(), rich().write(&opts).unwrap());
}

#[test]
fn cut_off_files_are_refused() {
    let (apt, cst) = rich().write(&WriteOptions::new(PtrSize::Four, false, 6)).unwrap();
    assert!(AptFile::read(&apt[..15], &cst).is_err());
    assert!(AptFile::read(&apt[..apt.len() / 2], &cst).is_err());
    assert!(AptFile::read(&apt, &cst[..20]).is_err());
    let mut bad = apt.clone();
    bad[0] = b'B';
    assert!(AptFile::read(&bad, &cst).is_err());
}

#[test]
fn text_beyond_latin1_is_refused() {
    let mut f = small();
    f.movie.frames[0].controls = vec![Control::FrameLabel("\u{2192}".to_owned())];
    assert!(f.write(&WriteOptions::new(PtrSize::Four, false, 6)).is_err());
}

#[test]
fn base_paths_lose_their_extension() {
    assert_eq!(base_path("dir/MainMenu.apt"), "dir/MainMenu");
    assert_eq!(base_path("MainMenu.const"), "MainMenu");
    assert_eq!(base_path("MainMenu.swf"), "MainMenu.swf");
    assert_eq!(base_path("dir/.apt"), "dir/.apt");
}

#[test]
fn streams_are_listed_in_order() {
    let f = rich();
    let all = all_streams(&f.movie);
    let labels: Vec<StreamLabel> = all.iter().map(|s| s.label).collect();
    assert_eq!(
        labels,
        [
            StreamLabel::Action { frame: 0 },
            StreamLabel::ButtonAction { index: 0, conditions: 8 },
            StreamLabel::ClipEvent { frame: 0, event: 0 },
            StreamLabel::Action { frame: 0 },
            StreamLabel::InitAction { frame: 1 },
        ]
    );
    let CharacterSlot::Character(c) = &f.movie.characters[7] else { panic!() };
    assert_eq!(character_streams(c).len(), 3);
    assert_eq!(count_kind(&f.movie, "Sound"), 1);
    assert_eq!(count_kind(&f.movie, "empty"), 1);
    assert_eq!(count_kind(&f.movie, "Nonsense"), 0);
}

#[test]
fn functions_are_listed_with_their_bodies() {
    let s = code();
    let lines = disassemble(&s);
    // Two functions with a body each: a head and an end for each.
    assert_eq!(lines.len(), s.instructions.len() + 3 + 1 + 2);
    assert!(matches!(lines[0].line, Line::Plain(Instruction::DefineDictionary(_))));
    assert!(matches!(lines[1].line, Line::Open(Instruction::DefineFunction2 { .. })));
    assert_eq!(lines[2].depth, 1);
    assert!(matches!(lines[5].line, Line::Close));
    assert_eq!(lines[5].depth, 0);
}

#[test]
fn an_empty_stream_is_written_as_a_lone_end() {
    let mut a = small();
    a.movie.frames[0].controls.push(Control::Action(ActionStream { instructions: vec![] }));
    let (apt, cst) = a.write(&WriteOptions::new(PtrSize::Four, false, 6)).unwrap();
    let b = AptFile::read(&apt, &cst).unwrap();
    assert_eq!(b.movie.frames[0].controls[1], Control::Action(end()));
}

#[test]
fn failed_reads_stay_where_they_are() {
    let data = [1u8, 2, 3];
    let mut c = Cursor::new(&data, PtrSize::Four);
    assert_eq!(c.u16().unwrap(), 0x0201);
    assert_eq!(c.pos, 2);
    assert!(matches!(c.u32(), Err(Error::OutOfBounds { offset: 2, need: 4, len: 3 })));
    assert!(c.u16().is_err() && c.i32().is_err() && c.u64().is_err());
    assert_eq!(c.pos, 2);
    assert_eq!(c.u8().unwrap(), 3);
    c.align(16);
    assert_eq!(c.pos, 16);
    c.align(16);
    assert_eq!(c.pos, 16);
}

#[test]
fn blobs_are_padded_to_any_power_of_two() {
    let mut a = Arena::new(PtrSize::Eight);
    a.bytes(&[7, 7, 7]);
    a.align(32);
    assert_eq!(a.len(), 32);
    assert!(a.buf[3..].iter().all(|&b| b == 0));
    let before = a.buf.clone();
    assert!(matches!(a.string("\u{2192}"), Err(Error::NonLatin1String(s)) if s == "\u{2192}"));
    assert_eq!(a.buf, before);
    assert_eq!(a.string("ok").unwrap(), 32);
    assert_eq!(a.buf[32..], *b"ok\0");
}

#[test]
fn deferred_data_is_placed_once() {
    let mut a = Arena::new(PtrSize::Four);
    let mut d = Deferred::default();
    d.string(&mut a, "hi");
    d.ptr_array(&mut a, vec![5, 6]);
    d.string(&mut a, "hi");
    d.flush(&mut a).unwrap();
    let c = Cursor::new(&a.buf, PtrSize::Four);
    assert_eq!(c.at(0).ptr_string().unwrap(), "hi");
    assert_eq!(c.at(8).ptr_string().unwrap(), "hi");
    let array = c.at(4).ptr().unwrap();
    assert_eq!(c.at(array).ptr().unwrap(), 5);
    assert_eq!(c.at(array + 4).ptr().unwrap(), 6);
    let before = a.buf.clone();
    d.flush(&mut a).unwrap();
    assert_eq!(a.buf, before);
    // A string that cannot be placed stops it; nothing waits any more.
    d.string(&mut a, "\u{2192}");
    assert!(d.flush(&mut a).is_err());
    let before = a.buf.clone();
    d.flush(&mut a).unwrap();
    assert_eq!(a.buf, before);
}

#[test]
fn texts_are_shared_behind_the_arrays() {
    let mut a = Arena::new(PtrSize::Four);
    let mut d = Deferred::default();
    d.string(&mut a, "hi");
    d.string_array(&mut a, vec!["b".to_owned(), "hi".to_owned()]);
    d.string(&mut a, "c\0d");
    d.string(&mut a, "c\0d");
    d.flush(&mut a).unwrap();
    let c = Cursor::new(&a.buf, PtrSize::Four);
    let at = |p: u64| c.at(p).ptr().unwrap();
    // Four slots, the array of two pointers, then each text once, as first seen.
    assert_eq!([at(0), at(4), at(8), at(12), at(16), at(20)], [24, 16, 27, 27, 31, 24]);
    assert_eq!(a.buf[24..], *b"hi\0c\0d\0b\0");
}

#[test]
fn slots_can_be_filled_again() {
    let mut a = Arena::new(PtrSize::Eight);
    let p = a.ptr_patch();
    let n = a.i32_patch();
    a.patch_ptr(p, 7);
    a.patch_i32(n, -2);
    assert_eq!(a.buf, [7, 0, 0, 0, 0, 0, 0, 0, 0xFE, 0xFF, 0xFF, 0xFF]);
    a.patch_ptr(p, 0x100);
    a.patch_i32(n, 3);
    assert_eq!(a.buf, [0, 1, 0, 0, 0, 0, 0, 0, 3, 0, 0, 0]);
}

#[test]
fn any_constants_are_decoded_as_they_were() {
    // A stream holds only the places of its constants.
    let stream = ActionStream {
        instructions: vec![
            Instruction::Push(vec![
                Value::String("a\0b".to_owned()),
                Value::String("\u{2192}".to_owned()),
            ]),
            Instruction::End,
        ],
    };
    for p in [PtrSize::Four, PtrSize::Eight] {
        let mut sink = Sink::new(p);
        encode_stream(&mut sink, &stream).unwrap();
        sink.deferred.flush(&mut sink.arena).unwrap();
        let c = Cursor::new(&sink.arena.buf, p);
        assert_eq!(decode_stream(&c, 0, &sink.consts).unwrap(), stream);
    }
}

#[test]
fn encoded_streams_are_decoded_as_they_were() {
    for p in [PtrSize::Four, PtrSize::Eight] {
        let mut sink = Sink::new(p);
        sink.u8(9);
        let start = encode_stream(&mut sink, &code()).unwrap();
        assert_eq!(start, 1);
        sink.deferred.flush(&mut sink.arena).unwrap();
        let c = Cursor::new(&sink.arena.buf, p);
        let read = decode_stream(&c, start, &sink.consts).unwrap();
        assert_eq!(read, code());
        // Once more for the other pointer size.
        let q = if p == PtrSize::Four { PtrSize::Eight } else { PtrSize::Four };
        let mut other = Sink::new(q);
        assert_eq!(encode_stream(&mut other, &read).unwrap(), 0);
        other.deferred.flush(&mut other.arena).unwrap();
        let c = Cursor::new(&other.arena.buf, q);
        assert_eq!(decode_stream(&c, 0, &other.consts).unwrap(), code());
    }
}

#[test]
fn names_tell_opcodes_apart() {
    let mut names = vec![];
    for op in 0..=255u8 {
        let name = opcode_name(op);
        // Enough zeros for any operands.
        let mut data = vec![op];
        data.resize(64, 0);
        let got = decode_stream(&Cursor::new(&data, PtrSize::Four), 0, &[]);
        let refused = matches!(got, Err(Error::InvalidOpcode { opcode, .. }) if opcode == op);
        assert_eq!(name == "<invalid>", refused, "{op:#x}");
        if !refused {
            assert!(!names.contains(&name), "{name}");
            names.push(name);
        }
    }
    assert_eq!(names.len(), 134);
}

#[test]
fn a_separator_at_the_end_says_nothing() {
    assert_eq!(base_path("a/b.apt/"), "a/b");
    assert_eq!(base_path("a/b.const/."), "a/b");
    assert_eq!(base_path("a/b/"), "a/b/");
    assert_eq!(base_path("a/.apt"), "a/.apt");
    let ru = RuFormat;
    assert_eq!(ru.path_for("a/m/", 3), "a/m_geometry/3.ru");
    assert_eq!(ru.path_for("..", 3), "../apt_geometry/3.ru");
}
