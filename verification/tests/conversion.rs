use apttools::apt::actions::{ActionStream, Instruction};
use apttools::apt::types::{
    Character, CharacterSlot, Control, EventAction, Export, Filter, Frame, Header, Import, Matrix,
    Movie, PackedCxForm, PlaceObject, PtrSize, Rect, Shape, Sprite, Text, TextAlignment,
};
use apttools::apt::AptFile;
use apttools::apt_aux::{RenderUnit, ShapeGeometry, Style, Texture};
use apttools::apt_convert::assets::{
    DiskAssets, GeometryOnly, LoadedAssets, LoadedShape, LoadedTexture, NoAssets,
};
use apttools::apt_convert::converting::{ConvertOptions, Walk};
use apttools::apt_convert::floats::movie_floats;
use apttools::apt_convert::from_swf::{cxform_from_swf, scale_byte, swf_to_apt, SwfToAptOptions};
use apttools::apt_convert::swf_movie::{Definition, Fill, PlaceAction, Rgba, TimelineTag};
use apttools::apt_convert::to_swf::{
    apt_to_swf, apt_to_swf_with, cxform_to_swf, frame_rate, scale_factor, unpack_color,
};
use apttools::apt_convert::{Error, ReadFault};
use std::io::Read;

fn movie(characters: Vec<CharacterSlot>, controls: Vec<Control>) -> AptFile {
    AptFile {
        header: Header {
            ptr_size: PtrSize::Four,
            decoupled: false,
            swf_version: 6,
            raw_tag: *b"Apt Data:0:6:4\0\0",
        },
        const_magic: [0; 20],
        movie: Movie {
            frames: vec![Frame { controls }],
            characters,
            width: 640,
            height: 480,
            ms_per_frame: 40,
            imports: vec![],
            exports: vec![],
        },
    }
}

fn place(id: i32) -> PlaceObject {
    PlaceObject { depth: 1, character_id: Some(id), ..Default::default() }
}

fn rect() -> Rect {
    Rect { left: 0, top: 0, right: 10f32.to_bits(), bottom: 5f32.to_bits() }
}

fn shape() -> CharacterSlot {
    CharacterSlot::Character(Character::Shape(Shape { bounds: rect(), bitmap_character_id: None }))
}

fn triangle(style: Style) -> ShapeGeometry {
    let v = |x: f32, y: f32| (x.to_bits(), y.to_bits());
    ShapeGeometry {
        units: vec![RenderUnit { style, vertices: vec![v(0.0, 0.0), v(10.0, 0.0), v(0.0, 5.0)] }],
    }
}

#[test]
fn colors_and_rates() {
    assert_eq!(unpack_color(0x4433_2211), Rgba { r: 0x33, g: 0x22, b: 0x11, a: 0x44 });
    assert_eq!(frame_rate(40), 25 * 256);
    assert_eq!(frame_rate(0), 30 * 256);
    assert_eq!(frame_rate(1), 32767);
}

#[test]
fn a_movie_becomes_tags() {
    let mut f = movie(
        vec![CharacterSlot::Root, shape()],
        vec![
            Control::FrameLabel("start".to_owned()),
            Control::BackgroundColor(0xFF11_2233),
            Control::PlaceObject(PlaceObject {
                name: Some("clip".to_owned()),
                blend_mode: Some(2),
                filters: vec![Filter::Blur { blur_x: 1, blur_y: 2, flags: 3 }],
                ..place(1)
            }),
            Control::Action(ActionStream {
                instructions: vec![Instruction::Simple(0x07), Instruction::End],
            }),
        ],
    );
    f.movie.exports = vec![Export { name: "panel".to_owned(), character_id: 1 }];
    f.movie.imports =
        vec![Import { movie: "Lib".to_owned(), name: "x".to_owned(), character_id: 1 }];
    let m = apt_to_swf(&f, &NoAssets, &[]).unwrap();
    assert_eq!((m.width, m.height, m.frame_rate), (640, 480, 6400));
    assert_eq!(m.num_frames, 1);
    assert!(matches!(
        &m.definitions[0],
        Definition::ImportAssets { url, assets } if url == "Lib.swf" && assets[0].name == "x"
    ));
    assert!(m.definitions.iter().any(|d| *d == Definition::BackgroundColor(Rgba {
        r: 0x11,
        g: 0x22,
        b: 0x33,
        a: 0xFF
    })));
    assert!(m
        .definitions
        .iter()
        .any(|d| matches!(d, Definition::ExportAssets(v) if v[0].name == "panel" && v[0].id == 1)));
    assert_eq!(m.timeline[0], TimelineTag::FrameLabel("start".to_owned()));
    let TimelineTag::Place(p) = &m.timeline[1] else { panic!("{:?}", m.timeline) };
    assert_eq!(p.version, 3);
    assert_eq!(p.action, PlaceAction::Place(1));
    assert_eq!(p.blend_mode, Some(2));
    assert_eq!(p.filters.len(), 1);
    assert_eq!(m.timeline[2], TimelineTag::DoAction(vec![0x07, 0]));
    assert_eq!(m.timeline[3], TimelineTag::ShowFrame);

    let m = apt_to_swf_with(&f, &NoAssets, Some(0x00AA_BBCC), &[]).unwrap();
    assert!(m.definitions.iter().any(
        |d| matches!(d, Definition::BackgroundColor(c) if (c.r, c.g, c.b) == (0xAA, 0xBB, 0xCC))
    ));
}

#[test]
fn shapes_are_filled_with_their_images() {
    let f = movie(vec![CharacterSlot::Root, shape()], vec![Control::PlaceObject(place(1))]);
    let style = Style::Textured {
        color: 0xFF00_00FF,
        bitmap_character_id: 5,
        matrix: [1f32.to_bits(), 0, 0, 1f32.to_bits(), 0, 0],
        clipped: true,
    };
    let texture = Texture { width: 1, height: 1, rgba: vec![1, 2, 3, 255] };
    let assets = LoadedAssets {
        shapes: vec![LoadedShape { shape_index: 1, geometry: triangle(style) }],
        textures: vec![LoadedTexture {
            shape_index: 1,
            bitmap_character_id: 5,
            key: "m#5".to_owned(),
            texture,
        }],
    };
    let m = apt_to_swf(&f, &assets, &[]).unwrap();
    let bitmap = m.definitions.iter().find_map(|d| match d {
        Definition::Bitmap { id, width, height, .. } => Some((*id, *width, *height)),
        _ => None,
    });
    let (id, width, height) = bitmap.unwrap();
    assert_eq!((width, height), (1, 1));
    let fill = |m: &apttools::apt_convert::swf_movie::SwfMovie| {
        m.definitions
            .iter()
            .find_map(|d| match d {
                Definition::Shape(s) => Some(s.fills[0]),
                _ => None,
            })
            .unwrap()
    };
    assert!(matches!(fill(&m), Fill::Bitmap { id: i, repeating: false, .. } if i == id));
    // Without textures the color does.
    let m = apt_to_swf(&f, &GeometryOnly(assets), &[]).unwrap();
    assert_eq!(fill(&m), Fill::Color(Rgba { r: 0, g: 0, b: 255, a: 255 }));
}

#[test]
fn text_uses_a_device_font() {
    let text = Character::Text(Text {
        bounds: rect(),
        font_id: 2,
        alignment: TextAlignment::Center,
        color: 0xFFFF_FFFF,
        font_height: 14f32.to_bits(),
        read_only: true,
        multiline: false,
        word_wrap: false,
        initial_text: "hi".to_owned(),
        variable: String::new(),
    });
    let font = Character::Font(apttools::apt::types::Font { name: "Arial".to_owned(), glyphs: vec![] });
    let f = movie(
        vec![CharacterSlot::Root, CharacterSlot::Character(text), CharacterSlot::Character(font)],
        vec![Control::PlaceObject(place(1))],
    );
    let m = apt_to_swf(&f, &NoAssets, &[]).unwrap();
    assert!(m
        .definitions
        .iter()
        .any(|d| matches!(d, Definition::DeviceFont { name, .. } if name == "Arial")));
    let edit = m.definitions.iter().find_map(|d| match d {
        Definition::EditText(e) => Some(e),
        _ => None,
    });
    let edit = edit.unwrap();
    assert_eq!(edit.font.unwrap().1, 14f32.to_bits());
    assert_eq!(edit.initial_text.as_deref(), Some("hi"));
}

fn swf_header() -> swf::Header {
    swf::Header {
        compression: swf::Compression::None,
        version: 8,
        stage_size: swf::Rectangle {
            x_min: swf::Twips::ZERO,
            x_max: swf::Twips::new(12800),
            y_min: swf::Twips::ZERO,
            y_max: swf::Twips::new(9600),
        },
        frame_rate: swf::Fixed8::from_f32(25.0),
        num_frames: 1,
    }
}

fn swf_file(tags: &[swf::Tag]) -> Vec<u8> {
    let mut out = Vec::new();
    swf::write_swf(&swf_header(), tags, &mut out).unwrap();
    out
}

fn swf_place<'a>(id: u16) -> swf::PlaceObject<'a> {
    swf::PlaceObject {
        version: 2,
        action: swf::PlaceObjectAction::Place(id),
        depth: 4,
        matrix: None,
        color_transform: None,
        ratio: None,
        name: None,
        clip_depth: None,
        class_name: None,
        filters: None,
        background_color: None,
        blend_mode: None,
        clip_actions: None,
        has_image: false,
        is_bitmap_cached: None,
        is_visible: None,
        amf_data: None,
    }
}

#[test]
fn a_file_is_recovered() {
    let code = [0x07u8, 0];
    let name: &swf::SwfStr = "clip".into();
    let mut p = swf_place(2);
    p.version = 3;
    p.name = Some(name);
    p.matrix = Some(swf::Matrix::translate(swf::Twips::new(30), swf::Twips::new(-20)));
    p.blend_mode = Some(swf::BlendMode::Multiply);
    p.filters = Some(vec![swf::Filter::BlurFilter(Box::new(swf::BlurFilter {
        blur_x: swf::Fixed16::from_f64(2.0),
        blur_y: swf::Fixed16::from_f64(3.0),
        flags: swf::BlurFilterFlags::from_passes(1),
    }))]);
    p.clip_actions = Some(swf::ClipActions {
        all_event_flags: swf::ClipEventFlag::LOAD,
        records: vec![swf::ClipAction {
            events: swf::ClipEventFlag::LOAD,
            key_code: None,
            action_data: &code,
        }],
    });
    let sprite = swf::Sprite { id: 2, num_frames: 1, tags: vec![swf::Tag::ShowFrame] };
    let label: &swf::SwfStr = "start".into();
    let data = swf_file(&[
        swf::Tag::SetBackgroundColor(swf::Color { r: 1, g: 2, b: 3, a: 255 }),
        swf::Tag::DefineSprite(sprite),
        swf::Tag::FrameLabel(swf::FrameLabel { label, is_anchor: false }),
        swf::Tag::PlaceObject(Box::new(p)),
        swf::Tag::DoAction(&code),
        swf::Tag::ExportAssets(vec![swf::ExportedAsset { id: 2, name: "panel".into() }]),
        swf::Tag::ImportAssets {
            url: "Shared.swf".into(),
            imports: vec![swf::ExportedAsset { id: 3, name: "btn".into() }],
        },
        swf::Tag::ShowFrame,
    ]);
    let f = swf_to_apt(&data, SwfToAptOptions::default()).unwrap();
    assert_eq!((f.movie.width, f.movie.height, f.movie.ms_per_frame), (640, 480, 40));
    assert_eq!(f.movie.characters.len(), 4);
    assert_eq!(f.movie.characters[0], CharacterSlot::Root);
    assert!(matches!(&f.movie.characters[2], CharacterSlot::Character(Character::Sprite(_))));
    assert_eq!(f.movie.characters[3], CharacterSlot::Empty);
    assert_eq!(f.movie.exports, [Export { name: "panel".to_owned(), character_id: 2 }]);
    assert_eq!(
        f.movie.imports,
        [Import { movie: "Shared".to_owned(), name: "btn".to_owned(), character_id: 3 }]
    );
    let c = &f.movie.frames[0].controls;
    assert_eq!(c[0], Control::BackgroundColor(0xFF01_0203));
    assert_eq!(c[1], Control::FrameLabel("start".to_owned()));
    let Control::PlaceObject(p) = &c[2] else { panic!("{c:?}") };
    assert_eq!(p.character_id, Some(2));
    assert_eq!(p.name.as_deref(), Some("clip"));
    assert_eq!(p.blend_mode, Some(3));
    assert_eq!(p.filters.len(), 1);
    let m = p.matrix.unwrap();
    assert_eq!((m.tx, m.ty), (1.5f32.to_bits(), (-1f32).to_bits()));
    assert_eq!(
        p.clip_actions.as_ref().unwrap()[0],
        EventAction {
            triggers: 1,
            key_code: 0,
            actions: ActionStream {
                instructions: vec![Instruction::Simple(0x07), Instruction::End]
            },
        }
    );
    assert_eq!(
        c[3],
        Control::Action(ActionStream {
            instructions: vec![Instruction::Simple(0x07), Instruction::End]
        })
    );
}

#[test]
fn bad_files_are_refused() {
    assert_eq!(
        swf_to_apt(b"nothing", SwfToAptOptions::default()),
        Err(Error::SwfRead(ReadFault::BadFile))
    );
    let code = [0x96u8, 9, 0];
    let data = swf_file(&[swf::Tag::DoAction(&code), swf::Tag::ShowFrame]);
    assert_eq!(
        swf_to_apt(&data, SwfToAptOptions::default()),
        Err(Error::SwfRead(ReadFault::TruncatedPayload))
    );
}

#[test]
fn assets_go_back_to_their_movies() {
    let a = DiskAssets::for_movie("/game/Menu", 3, true);
    assert_eq!(a.origin(2).unwrap().index, 2);
    assert!(a.origin(3).is_none());
    assert_eq!(a.geometry_path(1).unwrap(), "/game/Menu_geometry/1.ru");
    assert!(a.geometry_path(9).is_none());
    assert_eq!(DiskAssets::key("/game/Menu", 7), "/game/Menu#7");
    let f = movie(
        vec![CharacterSlot::Root, shape(), CharacterSlot::Character(Character::Bitmap)],
        vec![],
    );
    let style =
        Style::Textured { color: 0, bitmap_character_id: 5, matrix: [0; 6], clipped: true };
    let shapes = vec![LoadedShape { shape_index: 1, geometry: triangle(style) }];
    let wanted = a.texture_requests(&f.movie, &shapes);
    let ids: Vec<(u32, u32)> =
        wanted.iter().map(|w| (w.shape_index, w.bitmap_character_id)).collect();
    assert_eq!(ids, [(1, 5), (2, 2)]);
    assert_eq!(wanted[0].base, "/game/Menu");
    let plain = DiskAssets::new(a.origins, false);
    assert!(plain.texture_requests(&f.movie, &shapes).is_empty());
}

#[test]
fn imported_movies_are_walked_once() {
    assert_eq!(
        ConvertOptions::default(),
        ConvertOptions { textures: true, inline_imports: false, override_background: None }
    );
    let import = |movie: &str| Import {
        movie: movie.to_owned(),
        name: "x".to_owned(),
        character_id: 1,
    };
    let mut w = Walk::new("/game/Menu");
    let d = w.next().unwrap();
    assert_eq!((d.name.as_str(), d.base.as_str()), ("Menu", "/game/Menu"));
    w.follow(&d.base, &vec![import("Lib"), import("a\\Lib"), import("Menu")]);
    let d = w.next().unwrap();
    assert_eq!((d.name.as_str(), d.base.as_str()), ("Lib", "/game/Lib"));
    w.follow(&d.base, &vec![import("Menu")]);
    assert!(w.next().is_none());
}

#[test]
fn numbers_to_spell_are_listed() {
    let mut f = movie(vec![CharacterSlot::Root], vec![]);
    f.movie.characters.push(CharacterSlot::Character(Character::Sprite(Sprite {
        frames: vec![Frame {
            controls: vec![Control::Action(ActionStream {
                instructions: vec![Instruction::DefineDictionary(vec![
                    apttools::apt::types::Value::Float(7),
                ])],
            })],
        }],
    })));
    assert_eq!(movie_floats(&f.movie), [7]);
    assert_eq!(apt_to_swf(&f, &NoAssets, &[]).unwrap_err(), Error::NoFloatText(7));
    assert!(apt_to_swf(&f, &NoAssets, &[(7, "x".to_owned())]).is_ok());
}

#[test]
fn factors_come_back_from_fixed_point() {
    for b in 0..=255u8 {
        let even = b == 0 || b == 127 || b == 254;
        assert_eq!(scale_byte(scale_factor(b)), if even { b } else { b - 1 });
        assert_eq!(scale_factor(b), (f64::from(b) / 254.0 * 256.0) as i16);
    }
    for v in i16::MIN..=i16::MAX {
        assert_eq!(scale_byte(v), (f64::from(v) / 256.0 * 254.0) as u8);
    }
    assert_eq!((scale_factor(0), scale_factor(127), scale_factor(254)), (0, 128, 256));
    assert_eq!((scale_factor(64), scale_factor(255)), (64, 257));
    assert_eq!((scale_byte(-1), scale_byte(128), scale_byte(256), scale_byte(999)), (0, 127, 254, 255));
    assert_eq!((scale_byte(64), scale_byte(257), scale_byte(258)), (63, 254, 255));
    let same = cxform_to_swf(PackedCxForm::default());
    assert_eq!((same.r_multiply, same.a_multiply, same.g_add), (256, 256, 0));
    let c = PackedCxForm { scale: 0xFE7F_00FE, bias: 0x0102_03FF };
    assert_eq!(cxform_from_swf(cxform_to_swf(c)), c);
    let c = PackedCxForm { scale: 0xFF80_4001, bias: 0x0102_03FF };
    let cut = PackedCxForm { scale: 0xFE7F_3F00, bias: 0x0102_03FF };
    assert_eq!(cxform_from_swf(cxform_to_swf(c)), cut);
}

#[test]
fn walks_reach_what_is_imported() {
    let import = |m: &str| Import { movie: m.to_owned(), name: "x".to_owned(), character_id: 1 };
    let mut w = Walk::new("/g/A");
    let mut names = vec![];
    while let Some(d) = w.next() {
        let v = match d.name.as_str() {
            "A" => vec![import("lib/B"), import("C"), import("..")],
            "B" => vec![import("C"), import("A")],
            "C" => vec![import("x\\D")],
            _ => vec![],
        };
        w.follow(&d.base, &v);
        assert_eq!(d.base, format!("/g/{}", d.name));
        names.push(d.name);
    }
    assert_eq!(names, ["A", "B", "C", "D"]);
    // A path that ends in no name leads to no movie.
    assert!(Walk::new("..").next().is_none());
    assert!(Walk::new("/").next().is_none());
    assert_eq!(Walk::new("a/b/").next().unwrap().name, "b");
}

/// Whether every bitmap fill leads to an image that is embedded as its source.
#[test]
fn bitmap_fills_match_sources_and_invert_uv_matrix() {
    let sources = [
        ("m#5", Texture { width: 1, height: 1, rgba: vec![10, 20, 30, 255] }),
        ("m#6", Texture { width: 2, height: 1, rgba: vec![200, 100, 50, 128, 0, 0, 0, 0] }),
    ];
    let uv = [2f32, 0.0, 0.0, 4.0, 3.0, -5.0].map(f32::to_bits);
    let textured = |bitmap| Style::Textured {
        color: 0,
        bitmap_character_id: bitmap,
        matrix: uv,
        clipped: true,
    };
    let f = movie(
        vec![CharacterSlot::Root, shape(), shape(), shape()],
        vec![Control::PlaceObject(place(1))],
    );
    let image = |shape, bitmap, k: usize| LoadedTexture {
        shape_index: shape,
        bitmap_character_id: bitmap,
        key: sources[k].0.to_owned(),
        texture: sources[k].1.clone(),
    };
    let assets = LoadedAssets {
        shapes: vec![
            LoadedShape { shape_index: 1, geometry: triangle(textured(5)) },
            LoadedShape { shape_index: 2, geometry: triangle(textured(6)) },
            LoadedShape { shape_index: 3, geometry: triangle(textured(5)) },
        ],
        textures: vec![image(1, 5, 0), image(2, 6, 1), image(3, 5, 0)],
    };
    let m = apt_to_swf(&f, &assets, &[]).unwrap();
    let mut embedded = vec![];
    for d in &m.definitions {
        if let Definition::Bitmap { id, width, height, data } = d {
            let mut pixels = vec![];
            flate2::read::ZlibDecoder::new(&data[..]).read_to_end(&mut pixels).unwrap();
            assert_eq!(pixels.len(), *width as usize * *height as usize * 4);
            embedded.push((*id, *width, *height, pixels));
        }
    }
    // The shared image is embedded once, and the characters are different ones.
    assert_eq!(embedded.len(), 2);
    assert_eq!((embedded[0].0, embedded[1].0), (4, 5));
    assert_eq!(embedded[0].3, [255, 10, 20, 30]);
    assert_eq!(embedded[1].3, [128, 100, 50, 25, 0, 0, 0, 0]);
    let mut fills = vec![];
    for d in &m.definitions {
        if let Definition::Shape(s) = d {
            for fill in &s.fills {
                if let Fill::Bitmap { id, uv: got, .. } = fill {
                    assert!(embedded.iter().any(|e| e.0 == *id));
                    // The matrix takes a vertex to texture pixels, so undoing it gives
                    // the vertex back.
                    assert_eq!(*got, uv);
                    let a = got.map(f32::from_bits);
                    let (x, y) = (10f32, 5f32);
                    let u = a[0] * x + a[1] * y + a[4];
                    let v = a[2] * x + a[3] * y + a[5];
                    let det = a[0] * a[3] - a[1] * a[2];
                    assert_eq!((a[3] * (u - a[4]) - a[1] * (v - a[5])) / det, x);
                    assert_eq!((a[0] * (v - a[5]) - a[2] * (u - a[4])) / det, y);
                    fills.push(*id);
                }
            }
        }
    }
    assert_eq!(fills, [4, 5, 4]);
}
