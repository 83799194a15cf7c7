use apttools::apt::types::{
    Button, ButtonRecord, ButtonSounds, Character, CharacterSlot, Control, Export, FloatCxForm,
    Font, Frame, Header, Import, Matrix, Movie, PlaceObject, PtrSize, Rect, Shape, Sprite,
};
use apttools::apt::AptFile;
use apttools::apt_convert::imports::{
    resolve, resolve_movie, Fault, Origin, Outcome, Resolved, Source,
};

#[test]
fn import_names_drop_their_authoring_path() {
    let base = "/game/MainMenu";
    for (import, want) in [
        ("MenuExport", "/game/MenuExport"),
        ("screens/fe_m_assetsGameSetup", "/game/fe_m_assetsGameSetup"),
        (".\\Components\\fe_onlineComponents", "/game/fe_onlineComponents"),
        (
            "..\\common\\shell\\fe_missionBriefingAssets",
            "/game/fe_missionBriefingAssets",
        ),
        ("../cafe/mouseComponents/std_MouseButton", "/game/std_MouseButton"),
    ] {
        assert_eq!(resolve_movie(base, import), want, "import {import:?}");
    }
}

fn file(characters: Vec<CharacterSlot>) -> AptFile {
    AptFile {
        header: Header {
            ptr_size: PtrSize::Four,
            decoupled: false,
            swf_version: 6,
            raw_tag: *b"Apt Data:0:6:4\0\0",
        },
        const_magic: [0; 20],
        movie: Movie {
            frames: vec![],
            characters,
            width: 1,
            height: 1,
            ms_per_frame: 1,
            imports: vec![],
            exports: vec![],
        },
    }
}

fn import(movie: &str, name: &str, id: u32) -> Import {
    Import { movie: movie.to_owned(), name: name.to_owned(), character_id: id }
}

fn export(name: &str, id: u32) -> Export {
    Export { name: name.to_owned(), character_id: id }
}

fn shape() -> CharacterSlot {
    CharacterSlot::Character(Character::Shape(Shape {
        bounds: Rect::default(),
        bitmap_character_id: None,
    }))
}

fn sprite(id: i32) -> CharacterSlot {
    CharacterSlot::Character(Character::Sprite(Sprite {
        frames: vec![Frame {
            controls: vec![Control::PlaceObject(PlaceObject {
                character_id: Some(id),
                ..Default::default()
            })],
        }],
    }))
}

fn done(o: Outcome) -> Resolved {
    match o {
        Outcome::Done(r) => r,
        Outcome::Need(b) => panic!("needs {b}"),
    }
}

fn placed(s: &CharacterSlot) -> Option<i32> {
    let CharacterSlot::Character(Character::Sprite(s)) = s else { return None };
    let Control::PlaceObject(p) = &s.frames[0].controls[0] else { return None };
    p.character_id
}

#[test]
fn imported_characters_bring_what_they_refer_to() {
    let mut menu = file(vec![CharacterSlot::Root, CharacterSlot::Empty]);
    menu.movie.imports = vec![import("Lib", "panel", 1)];
    let need = resolve("/g/Menu", &menu, &vec![]);
    assert!(matches!(need, Outcome::Need(b) if b == "/g/Lib"));

    // A sprite that places itself and a shape: the cycle ends.
    let mut lib = file(vec![CharacterSlot::Root, shape(), sprite(1)]);
    lib.movie.exports = vec![export("panel", 2)];
    let r = done(resolve(
        "/g/Menu",
        &menu,
        &vec![Source { base: "/g/Lib".to_owned(), file: Some(lib) }],
    ));
    assert!(r.unresolved.is_empty());
    assert!(r.file.movie.imports.is_empty());
    assert_eq!(r.file.movie.characters.len(), 3);
    assert_eq!(placed(&r.file.movie.characters[1]), Some(2));
    assert_eq!(r.file.movie.characters[2], shape());
    assert_eq!(
        r.origins,
        [
            Origin { base: "/g/Menu".to_owned(), index: 0 },
            Origin { base: "/g/Lib".to_owned(), index: 2 },
            Origin { base: "/g/Lib".to_owned(), index: 1 },
        ]
    );
}

#[test]
fn cycles_of_references_end() {
    let mut menu = file(vec![CharacterSlot::Root, CharacterSlot::Empty]);
    menu.movie.imports = vec![import("Lib", "a", 1)];
    let mut lib = file(vec![CharacterSlot::Root, sprite(2), sprite(1)]);
    lib.movie.exports = vec![export("a", 1)];
    let r = done(resolve(
        "Menu",
        &menu,
        &vec![Source { base: "Lib".to_owned(), file: Some(lib) }],
    ));
    assert_eq!(placed(&r.file.movie.characters[1]), Some(2));
    assert_eq!(placed(&r.file.movie.characters[2]), Some(1));
}

#[test]
fn chains_of_libraries_are_followed() {
    let mut menu = file(vec![CharacterSlot::Root, CharacterSlot::Empty]);
    menu.movie.imports = vec![import("A", "x", 1)];
    let mut a = file(vec![CharacterSlot::Root, CharacterSlot::Empty]);
    a.movie.exports = vec![export("x", 1)];
    a.movie.imports = vec![import("B", "y", 1)];
    let mut b = file(vec![CharacterSlot::Root, shape()]);
    b.movie.exports = vec![export("y", 1)];
    let lib = vec![
        Source { base: "A".to_owned(), file: Some(a) },
        Source { base: "B".to_owned(), file: Some(b) },
    ];
    let r = done(resolve("Menu", &menu, &lib));
    assert_eq!(r.file.movie.characters[1], shape());
    assert_eq!(r.origins[1], Origin { base: "B".to_owned(), index: 1 });
}

#[test]
fn buttons_and_fonts_are_renumbered() {
    let button = Character::Button(Button {
        is_menu: false,
        hit_test_bounds: Rect::default(),
        hit_test_vertices: vec![],
        hit_test_triangles: vec![],
        records: vec![ButtonRecord {
            states: 1,
            character_id: 3,
            layer: 1,
            matrix: Matrix::default(),
            cxform: FloatCxForm::default(),
        }],
        actions: vec![],
        sounds: Some(ButtonSounds {
            over_up_to_idle: 0,
            idle_to_over_up: 4,
            over_up_to_over_down: 0,
            over_down_to_over_up: 0,
        }),
    });
    let font = Character::Font(Font { name: "F".to_owned(), glyphs: vec![3, 3] });
    let mut lib = file(vec![
        CharacterSlot::Root,
        CharacterSlot::Character(button),
        CharacterSlot::Character(font),
        shape(),
        CharacterSlot::Character(Character::Sound),
    ]);
    lib.movie.exports = vec![export("b", 1), export("f", 2)];
    let mut menu =
        file(vec![CharacterSlot::Root, CharacterSlot::Empty, CharacterSlot::Empty]);
    menu.movie.imports = vec![import("L", "b", 1), import("L", "f", 2)];
    let r = done(resolve("M", &menu, &vec![Source { base: "L".to_owned(), file: Some(lib) }]));
    let CharacterSlot::Character(Character::Button(b)) = &r.file.movie.characters[1] else {
        panic!()
    };
    assert_eq!(b.records[0].character_id, 3);
    let sounds = b.sounds.unwrap();
    assert_eq!((sounds.over_up_to_idle, sounds.idle_to_over_up), (0, 4));
    let CharacterSlot::Character(Character::Font(f)) = &r.file.movie.characters[2] else {
        panic!()
    };
    assert_eq!(f.glyphs, [3, 3]);
    assert_eq!(r.file.movie.characters.len(), 5);
}

#[test]
fn imports_that_cannot_be_resolved_are_listed() {
    let mut menu = file(vec![CharacterSlot::Root, CharacterSlot::Empty]);
    menu.movie.imports = vec![
        import("Gone", "x", 1),
        import("L", "nope", 1),
        import("L", "hole", 1),
        import("L", "root", 1),
        import("L", "ok", 9),
        import("Loop", "x", 1),
    ];
    let mut lib = file(vec![CharacterSlot::Root, CharacterSlot::Empty, shape()]);
    lib.movie.exports = vec![export("hole", 1), export("root", 0), export("ok", 2)];
    let mut circle = file(vec![CharacterSlot::Root, CharacterSlot::Empty]);
    circle.movie.exports = vec![export("x", 1)];
    circle.movie.imports = vec![import("Loop", "x", 1)];
    let r = done(resolve(
        "M",
        &menu,
        &vec![
            Source { base: "Gone".to_owned(), file: None },
            Source { base: "L".to_owned(), file: Some(lib) },
            Source { base: "Loop".to_owned(), file: Some(circle) },
        ],
    ));
    let f: Vec<&Fault> = r.unresolved.iter().map(|u| &u.fault).collect();
    assert!(matches!(f[0], Fault::Unloadable(b) if b == "Gone"));
    assert!(matches!(f[1], Fault::NoExport(n) if n == "nope"));
    assert!(matches!(f[2], Fault::EmptySlot(o) if o.index == 1));
    assert!(matches!(f[3], Fault::NotACharacter(o) if o.index == 0));
    assert!(matches!(f[4], Fault::NoSlot(9)));
    assert!(matches!(f[5], Fault::Circular));
    assert_eq!(r.file.movie.characters[1], CharacterSlot::Empty);
}

#[test]
fn every_import_of_one_export_is_inlined() {
    let mut menu = file(vec![
        CharacterSlot::Root,
        CharacterSlot::Empty,
        CharacterSlot::Empty,
        CharacterSlot::Empty,
    ]);
    menu.movie.imports = vec![
        import("Lib", "panel", 1),
        import("Lib", "panel", 2),
        import("Lib", "same", 3),
    ];
    let mut lib = file(vec![CharacterSlot::Root, shape(), sprite(1)]);
    lib.movie.exports = vec![export("panel", 2), export("same", 2)];
    let lib = vec![Source { base: "Lib".to_owned(), file: Some(lib) }];
    let r = done(resolve("Menu", &menu, &lib));
    assert!(r.unresolved.is_empty());
    // What they refer to is copied once.
    assert_eq!(r.file.movie.characters.len(), 5);
    for slot in 1..4 {
        assert_eq!(placed(&r.file.movie.characters[slot]), Some(4));
        assert_eq!(r.origins[slot], Origin { base: "Lib".to_owned(), index: 2 });
    }
    assert_eq!(r.file.movie.characters[4], shape());
}

#[test]
fn a_movie_can_import_what_it_exports_itself() {
    let mut menu = file(vec![CharacterSlot::Root, CharacterSlot::Empty, shape(), CharacterSlot::Empty]);
    menu.movie.exports = vec![export("own", 2), export("hole", 3)];
    menu.movie.imports = vec![import("Menu", "own", 1), import("Menu", "hole", 3)];
    let mut again = file(vec![CharacterSlot::Root, CharacterSlot::Empty, shape(), CharacterSlot::Empty]);
    again.movie.exports = vec![export("own", 2), export("hole", 3)];
    again.movie.imports = vec![import("Menu", "own", 1), import("Menu", "hole", 3)];
    let lib = vec![Source { base: "Menu".to_owned(), file: Some(again) }];
    let r = done(resolve("Menu", &menu, &lib));
    assert_eq!(r.file.movie.characters[1], shape());
    assert_eq!(r.file.movie.characters[3], CharacterSlot::Empty);
    assert_eq!(r.unresolved.len(), 1);
    assert!(matches!(r.unresolved[0].fault, Fault::Circular));
    assert_eq!(r.unresolved[0].import, import("Menu", "hole", 3));
}

#[test]
fn references_can_be_nested_deep() {
    let n = 700;
    let mut slots = vec![CharacterSlot::Root];
    slots.extend((1..n).map(|i| sprite(i + 1)));
    slots.push(shape());
    let mut lib = file(slots);
    lib.movie.exports = vec![export("first", 1)];
    let mut menu = file(vec![CharacterSlot::Root, CharacterSlot::Empty]);
    menu.movie.imports = vec![import("Lib", "first", 1)];
    let lib = vec![Source { base: "Lib".to_owned(), file: Some(lib) }];
    let r = done(resolve("Menu", &menu, &lib));
    assert!(r.unresolved.is_empty());
    assert_eq!(r.file.movie.characters.len(), n as usize + 1);
    assert_eq!(placed(&r.file.movie.characters[1]), Some(2));
    assert_eq!(r.file.movie.characters[n as usize], shape());
}

#[test]
fn movies_stand_next_to_each_other() {
    assert_eq!(resolve_movie("Menu", "Lib"), "Lib");
    assert_eq!(resolve_movie("a/Menu/", "Lib"), "a/Lib");
    assert_eq!(resolve_movie("a//Menu", "Lib"), "a/Lib");
    assert_eq!(resolve_movie("/Menu", "Lib"), "/Lib");
    assert_eq!(resolve_movie("/", "Lib"), "./Lib");
    assert_eq!(resolve_movie("", "Lib"), "./Lib");
}
