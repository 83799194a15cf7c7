//! What the tags before the timeline of a SWF file say of the movie it is made from.
use super::assets::Assets;
use super::avm1::{self, Texts};
use super::building;
use super::placing_laws::{law_timeline, same_timeline};
use super::swf_model::{
    Asset, ButtonRecordTag, ButtonTag, Definition, EditTextTag, Fill, Outline, ShapeTag,
};
use super::swf_movie::Rgba;
use super::zlib;
use crate::apt::model::{
    AptFile, Button, ButtonRecord, Character, CharacterSlot, Control, Frame, Import, Movie, Text,
};
use crate::apt::types::{F32Bits, Matrix, PackedCxForm};
use crate::apt_aux::image_codec::Bitmap;
use crate::apt_aux::ru::{Batch, Look};
use vstd::prelude::*;

verus! {

/// Whether channels are those of a packed color: alpha, red, green, blue from the top.
pub open spec fn same_color(r: Rgba, c: u32) -> bool {
    c == 0x100_0000 * r.a + 0x1_0000 * r.r + 0x100 * r.g + r.b
}

/// A packed color keeps its channels.
pub proof fn law_color(c: u32)
    ensures
        same_color(building::rgba(c), c),
        building::opaque(c).a == 255,
        c < 0x100_0000 ==> same_color(Rgba { a: 0, ..building::opaque(c) }, c),
{
}

/// A packed color transform keeps what it does to each channel: the factors grow from 0
/// to 257 256ths as the bytes do, 254 being one, and what is added stays.
pub proof fn law_colors(c: PackedCxForm, scale: Rgba, bias: Rgba)
    requires
        same_color(scale, c.scale),
        same_color(bias, c.bias),
    ensures
        ({
            let f = building::fixed_colors(c);
            &&& 254 * f.r_multiply <= 256 * scale.r < 254 * (f.r_multiply + 1)
            &&& 254 * f.g_multiply <= 256 * scale.g < 254 * (f.g_multiply + 1)
            &&& 254 * f.b_multiply <= 256 * scale.b < 254 * (f.b_multiply + 1)
            &&& 254 * f.a_multiply <= 256 * scale.a < 254 * (f.a_multiply + 1)
            &&& f.r_add == bias.r
            &&& f.g_add == bias.g
            &&& f.b_add == bias.b
            &&& f.a_add == bias.a
        }),
{
    lemma_channels(building::rgba(c.scale), scale, c.scale);
    lemma_channels(building::rgba(c.bias), bias, c.bias);
    lemma_factor(scale.r);
    lemma_factor(scale.g);
    lemma_factor(scale.b);
    lemma_factor(scale.a);
}

/// A color has one value for each channel.
proof fn lemma_channels(p: Rgba, q: Rgba, c: u32)
    requires
        p == building::rgba(c),
        same_color(q, c),
    ensures
        p == q,
{
    assert(c / 0x100 == 0x1_0000 * q.a + 0x100 * q.r + q.g);
    assert(c / 0x1_0000 == 0x100 * q.a + q.r);
    assert(c / 0x100_0000 == q.a);
}

proof fn lemma_factor(b: u8)
    ensures
        254 * building::scale_factor(b) <= 256 * b < 254 * (building::scale_factor(b) + 1),
{
}

/// Whether an id can be named in a SWF file.
pub open spec fn short(id: u32) -> bool {
    id <= 0xFFFF
}

/// Whether an asset is an import.
pub open spec fn imported(url: Seq<char>, a: Asset, i: Import) -> bool {
    &&& url == i.movie + seq!['.', 's', 'w', 'f']
    &&& a.name == i.name
    &&& short(i.character_id) ==> a.id == i.character_id
}

/// Whether an asset is one of the imports of a movie.
pub open spec fn is_import(m: Movie, url: Seq<char>, a: Asset) -> bool {
    exists|i: int| 0 <= i < m.imports.len() && imported(url, a, #[trigger] m.imports[i])
}

/// Whether a text of a SWF file is that of a movie: its place, its looks, what it says
/// and the variable it shows.
pub open spec fn same_text(e: EditTextTag, m: Movie, t: Text) -> bool {
    &&& e.bounds == t.bounds
    &&& same_color(e.color, t.color)
    &&& e.align == t.alignment
    &&& e.read_only == t.read_only
    &&& e.multiline == t.multiline
    &&& e.word_wrap == t.word_wrap
    &&& e.initial_text matches Some(s) ==> s == t.initial_text
    &&& e.initial_text is None == (t.initial_text.len() == 0)
    &&& e.variable matches Some(s) ==> s == t.variable
    &&& e.variable is None == (t.variable.len() == 0)
    &&& e.font is Some == (0 <= t.font_id < m.characters.len() && m.characters[t.font_id as int]
        is Character && m.characters[t.font_id as int]->Character_0 is Font)
    &&& e.font matches Some((id, height)) ==> id == t.font_id && height == t.font_height
}

/// The low eight bits of a number.
pub open spec fn low_byte(n: i32) -> u8 {
    ((n as u32) % 0x100) as u8
}

/// Whether a record shows something in one of the states up, over and down.
pub open spec fn shows(r: ButtonRecord) -> bool {
    low_byte(r.states) % 8 != 0
}

/// Whether a record belongs to the area that a button reacts in.
pub open spec fn hits(r: ButtonRecord) -> bool {
    low_byte(r.states) / 8 % 2 == 1
}

/// How many of the first `i` records show something.
pub open spec fn shown_before(v: Seq<ButtonRecord>, i: int) -> int
    decreases i,
{
    if i <= 0 {
        0
    } else {
        shown_before(v, i - 1) + if shows(v[i - 1]) {
            1int
        } else {
            0
        }
    }
}

/// Whether a record of a SWF file is that of a movie.
pub open spec fn same_record(t: ButtonRecordTag, r: ButtonRecord) -> bool {
    &&& t.states == low_byte(r.states) % 8
    &&& short(r.character_id) ==> t.id == r.character_id
    &&& 0 <= r.layer <= 0xFFFF ==> t.depth == r.layer
    &&& t.matrix == r.matrix
    &&& t.cxform == r.cxform
}

/// Whether a matrix is that of the first record for the area, or moves nothing where
/// there is none.
pub open spec fn area_matrix(x: Matrix, v: Seq<ButtonRecord>) -> bool {
    ||| exists|i: int|
        0 <= i < v.len() && hits(#[trigger] v[i]) && x == v[i].matrix && forall|j: int|
            0 <= j < i ==> !hits(#[trigger] v[j])
    ||| (forall|j: int| 0 <= j < v.len() ==> !hits(#[trigger] v[j])) && x == (Matrix {
        a: 0x3F80_0000,
        b: 0,
        c: 0,
        d: 0x3F80_0000,
        tx: 0,
        ty: 0,
    })
}

/// Whether a button of a SWF file is that of a movie: what shows something stands in
/// its order, and behind it the area that the button reacts in.
pub open spec fn same_button(t: ButtonTag, b: Button, area: int, texts: Texts) -> bool {
    let n = shown_before(b.records, b.records.len() as int);
    &&& t.is_menu == b.is_menu
    &&& t.records.len() == n + 1
    &&& forall|i: int|
        0 <= i < b.records.len() && shows(#[trigger] b.records[i]) ==> 0 <= shown_before(
            b.records,
            i,
        ) < n && same_record(t.records[shown_before(b.records, i)], b.records[i])
    &&& t.records[n].states == 8
    &&& t.records[n].id == area
    &&& area_matrix(t.records[n].matrix, b.records)
    &&& t.records[n].cxform.scale == seq![0x3F80_0000u32, 0x3F80_0000, 0x3F80_0000, 0x3F80_0000]
    &&& t.records[n].cxform.translate == seq![0u32, 0, 0, 0]
    &&& t.actions.len() == b.actions.len()
    &&& forall|i: int|
        #![trigger t.actions[i]]
        0 <= i < b.actions.len() ==> {
            &&& 0 <= b.actions[i].conditions <= 0xFFFF ==> t.actions[i].conditions
                == b.actions[i].conditions
            &&& t.actions[i].code == avm1::code(b.actions[i].actions, texts)
        }
}

/// A vertex of a mesh, the origin where there is none.
pub open spec fn corner(b: Button, i: i16) -> (F32Bits, F32Bits) {
    if 0 <= i < b.hit_test_vertices.len() {
        b.hit_test_vertices[i as int]
    } else {
        (0, 0)
    }
}

/// Whether a shape is the area that a button reacts in: a triangle for each of the mesh,
/// or the bounds where there is no mesh.
pub open spec fn same_area(s: ShapeTag, b: Button) -> bool {
    let r = b.hit_test_bounds;
    &&& s.bounds == r
    &&& s.fills.len() == 1
    &&& forall|k: int| 0 <= k < s.outlines.len() ==> (#[trigger] s.outlines[k]).fill == 1
    &&& b.hit_test_triangles.len() == 0 ==> s.outlines.len() == 1 && s.outlines[0].points
        == seq![(r.left, r.top), (r.right, r.top), (r.right, r.bottom), (r.left, r.bottom)]
    &&& b.hit_test_triangles.len() > 0 ==> s.outlines.len() == b.hit_test_triangles.len()
    &&& b.hit_test_triangles.len() > 0 ==> forall|k: int|
        #![trigger s.outlines[k]]
        0 <= k < s.outlines.len() ==> {
            let t = b.hit_test_triangles[k];
            let p = s.outlines[k].points;
            p.len() == 3 && p[0] == corner(b, t[0]) && p[1] == corner(b, t[1]) && p[2] == corner(
                b,
                t[2],
            )
        }
}

/// Whether a bitmap is embedded as an image of a table.
pub open spec fn embedded(table: building::Table, key: Seq<char>, id: u16) -> bool {
    exists|l: int|
        0 <= l < table.loaded.len() && (#[trigger] table.loaded[l]).key == key
            && table.loaded[l].id == id
}

/// Whether a fill is that of a unit: its image where one is supplied for it, mapped and
/// repeated as the unit says, and its color otherwise.
pub open spec fn same_fill<A: Assets>(
    f: Fill,
    u: Batch,
    shape: u32,
    a: &A,
    table: building::Table,
) -> bool {
    match u.style {
        Look::Solid { color } => f matches Fill::Color(c) && same_color(c, color),
        Look::Line { color, .. } => f matches Fill::Color(c) && same_color(c, color),
        Look::Textured { color, bitmap_character_id, matrix, clipped } => match a.pictured(
            shape,
            bitmap_character_id,
        ) {
            None => f matches Fill::Color(c) && same_color(c, color),
            Some((key, _)) => {
                &&& f matches Fill::Bitmap { id, uv, repeating, instead }
                &&& embedded(table, key, id)
                &&& uv == matrix
                &&& repeating == !clipped
                &&& same_color(instead, color)
            },
        },
    }
}

/// How many triangles the first `k` units have.
pub open spec fn triangles_before(v: Seq<Batch>, k: int) -> int
    decreases k,
{
    if k <= 0 {
        0
    } else {
        triangles_before(v, k - 1) + v[k - 1].vertices.len() / 3
    }
}

/// Whether the `t`-th triangle of the `k`-th unit is drawn in the unit's fill.
pub open spec fn same_triangle(o: Outline, v: Seq<Batch>, k: int, t: int) -> bool {
    &&& o.fill == k + 1
    &&& o.points.len() == 3
    &&& o.points[0] == v[k].vertices[3 * t]
    &&& o.points[1] == v[k].vertices[3 * t + 1]
    &&& o.points[2] == v[k].vertices[3 * t + 2]
}

/// Whether the `t`-th triangle of the `k`-th unit stands behind those of the units and
/// triangles before it.
pub open spec fn drawn_at(w: Seq<Outline>, v: Seq<Batch>, k: int, t: int) -> bool {
    let i = triangles_before(v, k) + t;
    0 <= i < w.len() && same_triangle(w[i], v, k, t)
}

/// Whether every triangle of the first `n` units is drawn, and nothing else.
pub open spec fn same_outlines(w: Seq<Outline>, v: Seq<Batch>, n: int) -> bool {
    &&& w.len() == triangles_before(v, n)
    &&& forall|k: int, t: int|
        0 <= k < n && 0 <= t < v[k].vertices.len() / 3 ==> #[trigger] drawn_at(w, v, k, t)
}

/// Whether a shape of a SWF file is one of a movie.
pub open spec fn same_shape<A: Assets>(
    s: ShapeTag,
    a: &A,
    table: building::Table,
) -> bool {
    let v = match a.drawn(s.id as u32) {
        Some(v) => v,
        None => Seq::empty(),
    };
    &&& s.fills.len() == v.len()
    &&& forall|k: int|
        0 <= k < v.len() ==> same_fill(#[trigger] s.fills[k], v[k], s.id as u32, a, table)
    &&& v.len() <= u32::MAX ==> same_outlines(s.outlines, v, v.len() as int)
}

/// How many of the first `i` characters are buttons.
pub open spec fn buttons_before(m: Movie, i: int) -> int
    decreases i,
{
    if i <= 0 {
        0
    } else {
        buttons_before(m, i - 1) + if m.characters[i - 1] is Character
            && m.characters[i - 1]->Character_0 is Button {
            1int
        } else {
            0
        }
    }
}

/// Whether pixels are those of a picture with premultiplied alpha: alpha first, and each
/// channel the nearest to its share.
pub open spec fn same_pixels(p: Seq<u8>, rgba: Seq<u8>) -> bool {
    &&& p.len() == rgba.len() / 4 * 4
    &&& forall|i: int, c: int|
        #![trigger p[4 * i + c]]
        0 <= i < rgba.len() / 4 && 1 <= c <= 3 ==> {
            let share = rgba[4 * i + c - 1] * rgba[4 * i + 3];
            -127 <= 255 * p[4 * i + c] - share <= 127
        }
    &&& forall|i: int|
        0 <= i < rgba.len() / 4 ==> #[trigger] p[4 * i] == rgba[4 * i + 3]
}

/// Whether a definition is that of something in a movie.
#[verifier::opaque]
pub open spec fn defines<A: Assets>(
    d: Definition,
    m: Movie,
    a: &A,
    instead: Option<u32>,
    texts: Texts,
) -> bool {
    let n = m.characters.len();
    let table = building::drawn(m, a, n).table;
    match d {
        Definition::ImportAssets { url, assets } => {
            &&& assets.len() > 0
            &&& forall|j: int|
                0 <= j < assets.len() ==> is_import(m, url, #[trigger] assets[j])
        },
        Definition::Bitmap { id, width, height, data, pixels } => {
            exists|l: int| {
                let x = #[trigger] table.loaded[l];
                &&& 0 <= l < table.loaded.len()
                &&& id == x.id
                &&& x.texture.width <= 0xFFFF ==> width == x.texture.width
                &&& x.texture.height <= 0xFFFF ==> height == x.texture.height
                &&& pixels matches Some(p) && same_pixels(p, x.texture.rgba) && (zlib::deflated(
                    p,
                ) is Some ==> zlib::deflated(p) == Some(data))
            }
        },
        Definition::Shape(s) => if s.id < n {
            m.characters[s.id as int] matches CharacterSlot::Character(Character::Shape(x))
                && s.bounds == x.bounds && same_shape(s, a, table)
        } else {
            exists|i: int| {
                &&& 0 <= i < n
                &&& #[trigger] m.characters[i] matches CharacterSlot::Character(
                    Character::Button(b),
                )
                &&& s.id == n + buttons_before(m, i)
                &&& same_area(s, b)
            }
        },
        Definition::WholeBitmap { id, texture, width, height } => {
            &&& id < n
            &&& m.characters[id as int] == CharacterSlot::Character(Character::Bitmap)
            &&& building::is_placed(m, id as u32)
            &&& a.pictured(id as u32, id as u32) matches Some((key, x)) && embedded(
                table,
                key,
                texture,
            ) && width == x.width && height == x.height
        },
        Definition::DeviceFont { id, name } => {
            &&& id < n
            &&& m.characters[id as int] matches CharacterSlot::Character(Character::Font(f))
                && name == f.name
        },
        Definition::EditText(e) => {
            &&& e.id < n
            &&& m.characters[e.id as int] matches CharacterSlot::Character(Character::Text(t))
                && same_text(e, m, t)
        },
        Definition::Sprite { id, num_frames, tags } => {
            &&& id < n
            &&& m.characters[id as int] matches CharacterSlot::Character(Character::Sprite(v))
                && same_timeline(tags, v, texts) && (v.len() <= 0xFFFF ==> num_frames == v.len())
        },
        Definition::Button(t) => {
            &&& t.id < n
            &&& m.characters[t.id as int] matches CharacterSlot::Character(Character::Button(b))
                && same_button(t, b, n + buttons_before(m, t.id as int), texts)
        },
        Definition::ExportAssets(v) => {
            &&& v.len() == m.exports.len()
            &&& forall|i: int|
                #![trigger v[i]]
                0 <= i < v.len() ==> v[i].name == m.exports[i].name && (short(
                    m.exports[i].character_id,
                ) ==> v[i].id == m.exports[i].character_id)
        },
        Definition::BackgroundColor(c) => match instead {
            Some(rgb) => c.a == 255 && (rgb < 0x100_0000 ==> same_color(Rgba { a: 0, ..c }, rgb)),
            None => first_background(m.frames, c),
        },
    }
}

/// Whether a color is the first that a frame sets as the background.
pub open spec fn first_background(v: Seq<Frame>, c: Rgba) -> bool {
    exists|i: int, j: int|
        #![trigger v[i].controls[j]]
        0 <= i < v.len() && 0 <= j < v[i].controls.len() && (v[i].controls[j]
            matches Control::BackgroundColor(x) && same_color(c, x)) && forall|k: int, l: int|
            #![trigger v[k].controls[l]]
            0 <= k < v.len() && 0 <= l < v[k].controls.len() && v[k].controls[l] is BackgroundColor
                ==> i < k || (i == k && j <= l)
}

/// Which of the kinds of definitions, in the order in which they stand, one is.
pub open spec fn rank(d: Definition, n: nat) -> int {
    match d {
        Definition::ImportAssets { .. } => 0,
        Definition::Bitmap { .. } => 1,
        Definition::Shape(s) => if s.id < n {
            2
        } else {
            7
        },
        Definition::WholeBitmap { .. } => 3,
        Definition::DeviceFont { .. } => 4,
        Definition::EditText(_) => 5,
        Definition::Sprite { .. } => 6,
        Definition::Button(_) => 7,
        Definition::ExportAssets(_) => 8,
        Definition::BackgroundColor(_) => 9,
    }
}

/// The character that a definition gives.
pub open spec fn id_of(d: Definition) -> Option<u16> {
    match d {
        Definition::Shape(s) => Some(s.id),
        Definition::WholeBitmap { id, .. } => Some(id),
        Definition::DeviceFont { id, .. } => Some(id),
        Definition::EditText(e) => Some(e.id),
        Definition::Sprite { id, .. } => Some(id),
        Definition::Button(t) => Some(t.id),
        _ => None,
    }
}

/// Whether one of the definitions gives a character.
pub open spec fn given(v: Seq<Definition>, id: int) -> bool {
    exists|k: int| 0 <= k < v.len() && (id_of(#[trigger] v[k]) matches Some(i) && i == id)
}

/// Definitions of one kind, each of something in a movie.
spec fn fine<A: Assets>(
    v: Seq<Definition>,
    kind: int,
    m: Movie,
    a: &A,
    instead: Option<u32>,
    texts: Texts,
) -> bool {
    forall|k: int|
        0 <= k < v.len() ==> defines(#[trigger] v[k], m, a, instead, texts) && rank(
            v[k],
            m.characters.len(),
        ) == kind
}

proof fn lemma_low(n: i32)
    ensures
        (n as u8) & 7u8 == low_byte(n) % 8,
        (n & 8 != 0) == (low_byte(n) / 8 % 2 == 1),
{
    assert((n as u8) == ((n as u32) % 0x100) as u8) by (bit_vector);
    assert((n & 8 != 0) == (((n as u32) % 0x100) / 8 % 2 == 1)) by (bit_vector);
    let b = n as u8;
    assert(b & 7u8 == b % 8) by (bit_vector);
}

proof fn lemma_fonts<A: Assets>(m: Movie, a: &A, instead: Option<u32>, texts: Texts, n: nat)
    requires
        n <= m.characters.len() <= 0x1_0000,
    ensures
        fine(building::device_fonts(m, n), 4, m, a, instead, texts),
        forall|i: int|
            0 <= i < n && (#[trigger] m.characters[i] matches CharacterSlot::Character(
                Character::Font(_),
            )) ==> given(building::device_fonts(m, n), i),
    decreases n,
{
    if n > 0 {
        lemma_fonts(m, a, instead, texts, (n - 1) as nat);
        let before = building::device_fonts(m, (n - 1) as nat);
        let v = building::device_fonts(m, n);
        reveal(defines);
        lemma_still(before, v);
        if v.len() > before.len() {
            assert(id_of(v[v.len() - 1]) == Some((n - 1) as u16));
        }
    }
}

proof fn lemma_texts<A: Assets>(m: Movie, a: &A, instead: Option<u32>, texts: Texts, n: nat)
    requires
        n <= m.characters.len() <= 0x1_0000,
    ensures
        fine(building::edit_texts(m, n), 5, m, a, instead, texts),
        forall|i: int|
            0 <= i < n && (#[trigger] m.characters[i] matches CharacterSlot::Character(
                Character::Text(_),
            )) ==> given(building::edit_texts(m, n), i),
    decreases n,
{
    if n > 0 {
        lemma_texts(m, a, instead, texts, (n - 1) as nat);
        let before = building::edit_texts(m, (n - 1) as nat);
        let v = building::edit_texts(m, n);
        lemma_still(before, v);
        if let CharacterSlot::Character(Character::Text(t)) = m.characters[n - 1] {
            law_color(t.color);
            assert(id_of(v[v.len() - 1]) == Some((n - 1) as u16));
            reveal(defines);
        }
    }
}

proof fn lemma_sprites<A: Assets>(m: Movie, a: &A, instead: Option<u32>, texts: Texts, n: nat)
    requires
        n <= m.characters.len() <= 0x1_0000,
    ensures
        fine(building::sprites(m, texts, n), 6, m, a, instead, texts),
        forall|i: int|
            0 <= i < n && (#[trigger] m.characters[i] matches CharacterSlot::Character(
                Character::Sprite(_),
            )) ==> given(building::sprites(m, texts, n), i),
    decreases n,
{
    if n > 0 {
        lemma_sprites(m, a, instead, texts, (n - 1) as nat);
        let before = building::sprites(m, texts, (n - 1) as nat);
        let v = building::sprites(m, texts, n);
        lemma_still(before, v);
        if let CharacterSlot::Character(Character::Sprite(frames)) = m.characters[n - 1] {
            law_timeline(frames, texts);
            assert(id_of(v[v.len() - 1]) == Some((n - 1) as u16));
            reveal(defines);
        }
    }
}

/// What is given stays given.
proof fn lemma_still(before: Seq<Definition>, v: Seq<Definition>)
    requires
        before.len() <= v.len(),
        forall|k: int| 0 <= k < before.len() ==> before[k] == v[k],
    ensures
        forall|i: int| given(before, i) ==> #[trigger] given(v, i),
{
    assert forall|i: int| given(before, i) implies #[trigger] given(v, i) by {
        let k = choose|k: int|
            0 <= k < before.len() && (id_of(#[trigger] before[k]) matches Some(x) && x == i);
        assert(before[k] == v[k]);
    }
}

proof fn lemma_shown(v: Seq<ButtonRecord>, n: nat)
    requires
        n <= v.len(),
    ensures
        building::shown_records(v, n).len() == shown_before(v, n as int),
        0 <= shown_before(v, n as int),
        forall|i: int|
            0 <= i < n && shows(#[trigger] v[i]) ==> 0 <= shown_before(v, i) < shown_before(
                v,
                n as int,
            ) && same_record(building::shown_records(v, n)[shown_before(v, i)], v[i]),
    decreases n,
{
    if n > 0 {
        lemma_shown(v, (n - 1) as nat);
        lemma_low(v[n - 1].states);
        let before = building::shown_records(v, (n - 1) as nat);
        let now = building::shown_records(v, n);
        assert forall|i: int| 0 <= i < n && shows(#[trigger] v[i]) implies 0 <= shown_before(v, i)
            < shown_before(v, n as int) && same_record(now[shown_before(v, i)], v[i]) by {
            if i < n - 1 {
                assert(before[shown_before(v, i)] == now[shown_before(v, i)]);
            }
        }
    }
}

proof fn lemma_hit(v: Seq<ButtonRecord>, i: int)
    requires
        0 <= i <= v.len(),
        forall|j: int| 0 <= j < i ==> !hits(#[trigger] v[j]),
    ensures
        area_matrix(building::hit_matrix(v, i), v),
    decreases v.len() - i,
{
    if i < v.len() {
        lemma_low(v[i].states);
        if !hits(v[i]) {
            lemma_hit(v, i + 1);
        }
    }
}

proof fn lemma_button(id: u16, b: Button, area: u16, texts: Texts)
    ensures
        same_button(building::button_tag(id, b, area, texts), b, area as int, texts),
{
    lemma_shown(b.records, b.records.len());
    lemma_hit(b.records, 0);
    let t = building::button_tag(id, b, area, texts);
    let shown = building::shown_records(b.records, b.records.len());
    assert forall|i: int| 0 <= i < b.records.len() && shows(#[trigger] b.records[i]) implies 0
        <= shown_before(b.records, i) < shown_before(b.records, b.records.len() as int)
        && same_record(t.records[shown_before(b.records, i)], b.records[i]) by {
        assert(t.records[shown_before(b.records, i)] == shown[shown_before(b.records, i)]);
    }
}

proof fn lemma_button_list(m: Movie, n: nat)
    requires
        n <= m.characters.len() <= 0x1_0000,
    ensures
        0 <= buttons_before(m, n as int) <= n,
        building::buttons(m, n).len() == buttons_before(m, n as int),
        forall|j: int|
            #![trigger building::buttons(m, n)[j]]
            0 <= j < building::buttons(m, n).len() ==> {
                let (id, b) = building::buttons(m, n)[j];
                &&& id < n
                &&& m.characters[id as int] == CharacterSlot::Character(Character::Button(b))
                &&& buttons_before(m, id as int) == j
            },
        forall|i: int|
            0 <= i < n && (#[trigger] m.characters[i] matches CharacterSlot::Character(
                Character::Button(_),
            )) ==> 0 <= buttons_before(m, i) < buttons_before(m, n as int) && building::buttons(
                m,
                n,
            )[buttons_before(m, i)].0 == i,
    decreases n,
{
    if n > 0 {
        lemma_button_list(m, (n - 1) as nat);
    }
}

/// The area and the tag of one button.
proof fn lemma_pair<A: Assets>(
    m: Movie,
    a: &A,
    instead: Option<u32>,
    texts: Texts,
    id: u16,
    b: Button,
    area: u16,
)
    requires
        id < m.characters.len(),
        m.characters[id as int] == CharacterSlot::Character(Character::Button(b)),
        area == m.characters.len() + buttons_before(m, id as int),
        buttons_before(m, id as int) >= 0,
    ensures
        defines(Definition::Shape(building::hit_shape(area, b)), m, a, instead, texts),
        defines(
            Definition::Button(building::button_tag(id, b, area, texts)),
            m,
            a,
            instead,
            texts,
        ),
{
    lemma_button(id, b, area, texts);
    reveal(defines);
    assert(m.characters[id as int] is Character);
}

/// Whether the area of the `j`-th button stands right before the button.
spec fn paired(tags: Seq<Definition>, n: int, b: (u16, Button), j: int) -> bool {
    &&& (id_of(tags[2 * j]) matches Some(id) && id == n + j)
    &&& id_of(tags[2 * j + 1]) == Some(b.0)
}

/// The tags of the first `n` buttons: areas and buttons in turn.
proof fn lemma_buttons<A: Assets>(m: Movie, a: &A, instead: Option<u32>, texts: Texts, n: nat)
    requires
        m.characters.len() + buttons_before(m, m.characters.len() as int) <= 0x1_0000,
        m.characters.len() <= 0x1_0000,
        n <= building::buttons(m, m.characters.len()).len(),
    ensures
        ({
            let v = building::buttons(m, m.characters.len());
            let tags = building::button_tags(m, v, texts, n);
            &&& fine(tags, 7, m, a, instead, texts)
            &&& tags.len() == 2 * n
            &&& forall|j: int|
                0 <= j < n ==> paired(tags, m.characters.len() as int, #[trigger] v[j], j)
        }),
    decreases n,
{
    if n > 0 {
        lemma_buttons(m, a, instead, texts, (n - 1) as nat);
        let v = building::buttons(m, m.characters.len());
        let before = building::button_tags(m, v, texts, (n - 1) as nat);
        let tags = building::button_tags(m, v, texts, n);
        let (id, b) = v[n - 1];
        let area = building::hit_id(m, n - 1);
        assert({
            &&& id < m.characters.len()
            &&& m.characters[id as int] == CharacterSlot::Character(Character::Button(b))
            &&& buttons_before(m, id as int) == n - 1
            &&& n <= buttons_before(m, m.characters.len() as int)
        }) by {
            lemma_button_list(m, m.characters.len());
        }
        assert(area == m.characters.len() + n - 1);
        lemma_pair(m, a, instead, texts, id, b, area);
        let shape = Definition::Shape(building::hit_shape(area, b));
        let button = Definition::Button(building::button_tag(id, b, area, texts));
        assert(tags == before.push(shape).push(button));
        lemma_pushed(before, shape, 7, m, a, instead, texts);
        lemma_pushed(before.push(shape), button, 7, m, a, instead, texts);
        assert forall|j: int| 0 <= j < n implies paired(
            tags,
            m.characters.len() as int,
            #[trigger] v[j],
            j,
        ) by {
            if j < n - 1 {
                assert(tags[2 * j] == before[2 * j]);
                assert(tags[2 * j + 1] == before[2 * j + 1]);
                assert(paired(before, m.characters.len() as int, v[j], j));
            } else {
                assert(tags[2 * j] == shape);
                assert(tags[2 * j + 1] == button);
            }
        }
    }
}

proof fn lemma_pushed<A: Assets>(
    v: Seq<Definition>,
    d: Definition,
    kind: int,
    m: Movie,
    a: &A,
    instead: Option<u32>,
    texts: Texts,
)
    requires
        fine(v, kind, m, a, instead, texts),
        defines(d, m, a, instead, texts),
        rank(d, m.characters.len()) == kind,
    ensures
        fine(v.push(d), kind, m, a, instead, texts),
{
}

proof fn lemma_exports<A: Assets>(m: Movie, a: &A, instead: Option<u32>, texts: Texts)
    ensures
        fine(building::export_tags(m.exports), 8, m, a, instead, texts),
        building::export_tags(m.exports).len() == if m.exports.len() == 0 {
            0nat
        } else {
            1nat
        },
{
    reveal(defines);
}

proof fn lemma_controls(v: Seq<Control>, j: int)
    requires
        0 <= j <= v.len(),
    ensures
        match building::controls_background(v, j) {
            None => forall|k: int| j <= k < v.len() ==> !(#[trigger] v[k] is BackgroundColor),
            Some(c) => exists|k: int| {
                &&& j <= k < v.len()
                &&& #[trigger] v[k] == Control::BackgroundColor(c)
                &&& forall|l: int| j <= l < k ==> !(#[trigger] v[l] is BackgroundColor)
            },
        },
    decreases v.len() - j,
{
    if j < v.len() && !(v[j] is BackgroundColor) {
        lemma_controls(v, j + 1);
    }
}

proof fn lemma_background(v: Seq<Frame>, i: int)
    requires
        0 <= i <= v.len(),
        forall|k: int, l: int|
            #![trigger v[k].controls[l]]
            0 <= k < i && 0 <= l < v[k].controls.len() ==> !(v[k].controls[l] is BackgroundColor),
    ensures
        match building::background(v, i) {
            None => forall|k: int, l: int|
                #![trigger v[k].controls[l]]
                0 <= k < v.len() && 0 <= l < v[k].controls.len() ==> !(v[k].controls[l]
                    is BackgroundColor),
            Some(c) => first_background(v, building::rgba(c)),
        },
    decreases v.len() - i,
{
    if i < v.len() {
        let w = v[i].controls;
        lemma_controls(w, 0);
        match building::controls_background(w, 0) {
            None => {
                lemma_background(v, i + 1);
            },
            Some(c) => {
                let k = choose|k: int| {
                    &&& 0 <= k < w.len()
                    &&& #[trigger] w[k] == Control::BackgroundColor(c)
                    &&& forall|l: int| 0 <= l < k ==> !(#[trigger] w[l] is BackgroundColor)
                };
                law_color(c);
                assert(v[i].controls[k] == Control::BackgroundColor(c));
            },
        }
    }
}

proof fn lemma_backgrounds<A: Assets>(m: Movie, a: &A, instead: Option<u32>, texts: Texts)
    ensures
        ({
            let v = building::background_tags(m.frames, instead);
            &&& fine(v, 9, m, a, instead, texts)
            &&& v.len() <= 1
            &&& v.len() == 0 ==> instead is None && forall|k: int, l: int|
                #![trigger m.frames[k].controls[l]]
                0 <= k < m.frames.len() && 0 <= l < m.frames[k].controls.len() ==> !(
                m.frames[k].controls[l] is BackgroundColor)
        }),
{
    lemma_background(m.frames, 0);
    if let Some(rgb) = instead {
        law_color(rgb);
    }
    reveal(defines);
}

spec fn listed(movie: Seq<char>, a: Asset, i: Import) -> bool {
    &&& movie == i.movie
    &&& a.name == i.name
    &&& a.id == i.character_id as u16
}

/// Whether one of the groups lists an import.
spec fn in_groups(g: Seq<(Seq<char>, Seq<Asset>)>, i: Import) -> bool {
    exists|k: int, j: int|
        #![trigger g[k].1[j]]
        0 <= k < g.len() && 0 <= j < g[k].1.len() && listed(g[k].0, g[k].1[j], i)
}

/// Whether an asset is one of the first `n` imports.
spec fn from_import(v: Seq<Import>, n: nat, movie: Seq<char>, a: Asset) -> bool {
    exists|i: int| 0 <= i < n && listed(movie, a, #[trigger] v[i])
}

/// Whether every asset of a group is one of the first `n` imports.
spec fn from_imports(v: Seq<Import>, n: nat, g: (Seq<char>, Seq<Asset>)) -> bool {
    &&& g.1.len() > 0
    &&& forall|j: int| 0 <= j < g.1.len() ==> from_import(v, n, g.0, #[trigger] g.1[j])
}

proof fn lemma_group_of(g: Seq<(Seq<char>, Seq<Asset>)>, movie: Seq<char>, k: int)
    requires
        0 <= k <= g.len(),
    ensures
        k <= building::group_of(g, movie, k) <= g.len(),
        building::group_of(g, movie, k) < g.len() ==> g[building::group_of(g, movie, k)].0
            == movie,
        building::group_of(g, movie, k) == g.len() ==> forall|l: int|
            k <= l < g.len() ==> (#[trigger] g[l]).0 != movie,
    decreases g.len() - k,
{
    if k < g.len() && g[k].0 != movie {
        lemma_group_of(g, movie, k + 1);
    }
}

proof fn lemma_found(
    g: Seq<(Seq<char>, Seq<Asset>)>,
    h: Seq<(Seq<char>, Seq<Asset>)>,
    i: Import,
)
    requires
        g.len() <= h.len(),
        forall|k: int|
            #![trigger g[k]]
            0 <= k < g.len() ==> h[k].0 == g[k].0 && g[k].1.len() <= h[k].1.len() && forall|j: int|
                0 <= j < g[k].1.len() ==> #[trigger] h[k].1[j] == g[k].1[j],
        in_groups(g, i),
    ensures
        in_groups(h, i),
{
    let (k, j): (int, int) = choose|k: int, j: int|
        #![trigger g[k].1[j]]
        0 <= k < g.len() && 0 <= j < g[k].1.len() && listed(g[k].0, g[k].1[j], i);
    assert(listed(h[k].0, h[k].1[j], i));
}

proof fn lemma_more(v: Seq<Import>, n: nat, g: (Seq<char>, Seq<Asset>), a: Asset)
    requires
        n < v.len(),
        g.1.len() == 0 || from_imports(v, n, g),
        listed(g.0, a, v[n as int]),
    ensures
        from_imports(v, n + 1, (g.0, g.1.push(a))),
{
    let h = g.1.push(a);
    assert forall|j: int| 0 <= j < h.len() implies from_import(v, n + 1, g.0, #[trigger] h[j]) by {
        if j < g.1.len() {
            assert(h[j] == g.1[j]);
            assert(from_import(v, n, g.0, g.1[j]));
        } else {
            assert(listed(g.0, a, v[n as int]));
        }
    }
}

proof fn lemma_groups(v: Seq<Import>, n: nat)
    requires
        n <= v.len(),
    ensures
        forall|i: int| 0 <= i < n ==> in_groups(building::groups(v, n), #[trigger] v[i]),
        forall|k: int|
            0 <= k < building::groups(v, n).len() ==> from_imports(
                v,
                n,
                #[trigger] building::groups(v, n)[k],
            ),
    decreases n,
{
    if n > 0 {
        let n1 = (n - 1) as nat;
        lemma_groups(v, n1);
        let g = building::groups(v, n1);
        let h = building::groups(v, n);
        let x = v[n - 1];
        let asset = Asset { id: x.character_id as u16, name: x.name };
        lemma_group_of(g, x.movie, 0);
        let p = building::group_of(g, x.movie, 0);
        let old = if p < g.len() {
            g[p].1
        } else {
            Seq::empty()
        };
        lemma_more(v, n1, (x.movie, old), asset);
        assert(h[p] == (x.movie, old.push(asset))) by {
            assert(seq![asset] =~= Seq::<Asset>::empty().push(asset));
        }
        assert forall|i: int| 0 <= i < n implies in_groups(h, #[trigger] v[i]) by {
            if i < n - 1 {
                lemma_found(g, h, v[i]);
            } else {
                assert(h[p].1[old.len() as int] == asset);
            }
        }
        assert forall|k: int| 0 <= k < h.len() implies from_imports(v, n, #[trigger] h[k]) by {
            if k != p {
                assert(h[k] == g[k]);
                assert(from_imports(v, n1, g[k]));
            }
        }
    }
}

proof fn lemma_import<A: Assets>(
    m: Movie,
    a: &A,
    instead: Option<u32>,
    texts: Texts,
    g: (Seq<char>, Seq<Asset>),
)
    requires
        from_imports(m.imports, m.imports.len(), g),
    ensures
        defines(building::import_tag(g), m, a, instead, texts),
{
    reveal_strlit(".swf");
    let url = g.0 + ".swf"@;
    assert(".swf"@ =~= seq!['.', 's', 'w', 'f']);
    assert forall|j: int| 0 <= j < g.1.len() implies is_import(m, url, #[trigger] g.1[j]) by {
        assert(from_import(m.imports, m.imports.len(), g.0, g.1[j]));
        let i = choose|i: int|
            0 <= i < m.imports.len() && listed(g.0, g.1[j], #[trigger] m.imports[i]);
        assert(imported(url, g.1[j], m.imports[i]));
    }
    let d = building::import_tag(g);
    assert(d->assets == g.1 && d->url == url);
    reveal(defines);
}

proof fn lemma_imports<A: Assets>(m: Movie, a: &A, instead: Option<u32>, texts: Texts)
    ensures
        ({
            let v = building::import_tags(m.imports);
            &&& fine(v, 0, m, a, instead, texts)
            &&& forall|i: int|
                0 <= i < m.imports.len() ==> all_given(v, #[trigger] m.imports[i])
        }),
{
    lemma_groups(m.imports, m.imports.len());
    let g = building::groups(m.imports, m.imports.len());
    let v = building::import_tags(m.imports);
    assert forall|k: int| 0 <= k < v.len() implies defines(#[trigger] v[k], m, a, instead, texts)
        && rank(v[k], m.characters.len()) == 0 by {
        lemma_import(m, a, instead, texts, g[k]);
    }
    assert forall|i: int| 0 <= i < m.imports.len() implies all_given(
        v,
        #[trigger] m.imports[i],
    ) by {
        assert(in_groups(g, m.imports[i]));
        let (k, j): (int, int) = choose|k: int, j: int|
            #![trigger g[k].1[j]]
            0 <= k < g.len() && 0 <= j < g[k].1.len() && listed(g[k].0, g[k].1[j], m.imports[i]);
        lemma_listed(g[k], j, m.imports[i]);
        assert(v[k] == building::import_tag(g[k]));
    }
}

proof fn lemma_listed(g: (Seq<char>, Seq<Asset>), j: int, i: Import)
    requires
        0 <= j < g.1.len(),
        listed(g.0, g.1[j], i),
    ensures
        imports(building::import_tag(g), i),
{
    reveal_strlit(".swf");
    assert(".swf"@ =~= seq!['.', 's', 'w', 'f']);
    let d = building::import_tag(g);
    assert(imported(d->url, d->assets[j], i));
}

/// Whether a definition imports what a movie does.
pub open spec fn imports(d: Definition, i: Import) -> bool {
    d matches Definition::ImportAssets { url, assets } && exists|j: int|
        0 <= j < assets.len() && imported(url, #[trigger] assets[j], i)
}

/// Whether one of the definitions imports what a movie does.
pub open spec fn all_given(v: Seq<Definition>, i: Import) -> bool {
    exists|k: int| 0 <= k < v.len() && imports(#[trigger] v[k], i)
}

proof fn lemma_outlines(v: Seq<Batch>, n: nat)
    requires
        n <= v.len(),
        n <= u32::MAX,
    ensures
        0 <= triangles_before(v, n as int),
        same_outlines(building::outlines(v, n), v, n as int),
    decreases n,
{
    if n > 0 {
        lemma_outlines(v, (n - 1) as nat);
        let before = building::outlines(v, (n - 1) as nat);
        let last = building::triangles(n as u32, v[n - 1].vertices);
        let w = building::outlines(v, n);
        assert forall|k: int, t: int|
            0 <= k < n && 0 <= t < v[k].vertices.len() / 3 implies #[trigger] drawn_at(
            w,
            v,
            k,
            t,
        ) by {
            let i = triangles_before(v, k) + t;
            if k < n - 1 {
                assert(drawn_at(before, v, k, t));
                assert(w[i] == before[i]);
            } else {
                assert(w[i] == last[t]);
            }
        }
    }
}

/// Whether a picture is supplied under a key.
pub open spec fn supplied<A: Assets>(a: &A, key: Seq<char>, x: Bitmap) -> bool {
    exists|shape: u32, bitmap: u32| #[trigger] a.pictured(shape, bitmap) == Some((key, x))
}

/// Whether every image of a table is one that is supplied, and every reference of it leads
/// to the image that is supplied for it.
pub open spec fn truthful<A: Assets>(t: building::Table, a: &A) -> bool {
    &&& forall|l: int|
        0 <= l < t.loaded.len() ==> supplied(
            a,
            (#[trigger] t.loaded[l]).key,
            t.loaded[l].texture,
        )
    &&& forall|r: int|
        #![trigger t.refs[r]]
        0 <= r < t.refs.len() ==> (a.pictured(t.refs[r].0, t.refs[r].1) matches Some((key, _))
            && embedded(t, key, t.refs[r].2))
}

/// Whether a table goes on from another.
spec fn extends(t: building::Table, u: building::Table) -> bool {
    &&& t.loaded.len() <= u.loaded.len()
    &&& t.refs.len() <= u.refs.len()
    &&& forall|l: int| 0 <= l < t.loaded.len() ==> t.loaded[l] == #[trigger] u.loaded[l]
    &&& forall|r: int| 0 <= r < t.refs.len() ==> t.refs[r] == #[trigger] u.refs[r]
}

proof fn lemma_embedded(t: building::Table, u: building::Table, key: Seq<char>, id: u16)
    requires
        extends(t, u),
        embedded(t, key, id),
    ensures
        embedded(u, key, id),
{
    let l = choose|l: int|
        0 <= l < t.loaded.len() && (#[trigger] t.loaded[l]).key == key && t.loaded[l].id == id;
    assert(u.loaded[l] == t.loaded[l]);
}

proof fn lemma_ref(v: Seq<(u32, u32, u16)>, shape: u32, bitmap: u32, k: int)
    requires
        0 <= k <= v.len(),
    ensures
        match building::ref_id(v, shape, bitmap, k) {
            Some(id) => exists|r: int|
                k <= r < v.len() && #[trigger] v[r] == (shape, bitmap, id),
            None => forall|r: int|
                k <= r < v.len() ==> !((#[trigger] v[r]).0 == shape && v[r].1 == bitmap),
        },
    decreases v.len() - k,
{
    if k < v.len() && !(v[k].0 == shape && v[k].1 == bitmap) {
        lemma_ref(v, shape, bitmap, k + 1);
    }
}

proof fn lemma_key(v: Seq<building::Loaded>, key: Seq<char>, k: int)
    requires
        0 <= k <= v.len(),
    ensures
        k <= building::key_index(v, key, k) <= v.len(),
        building::key_index(v, key, k) < v.len() ==> v[building::key_index(v, key, k)].key == key,
    decreases v.len() - k,
{
    if k < v.len() && v[k].key != key {
        lemma_key(v, key, k + 1);
    }
}

proof fn lemma_entered<A: Assets>(
    t: building::Table,
    a: &A,
    shape: u32,
    bitmap: u32,
    key: Seq<char>,
    x: Bitmap,
)
    requires
        truthful(t, a),
        a.pictured(shape, bitmap) == Some((key, x)),
    ensures
        truthful(t.enter(shape, bitmap, key, x), a),
        extends(t, t.enter(shape, bitmap, key, x)),
        t.enter(shape, bitmap, key, x).character(shape, bitmap) is Some,
        embedded(t.enter(shape, bitmap, key, x), key, t.id_of(key)),
{
    lemma_key(t.loaded, key, 0);
    let u = t.enter(shape, bitmap, key, x);
    let k = building::key_index(t.loaded, key, 0);
    assert(u.loaded[k].key == key && u.loaded[k].id == t.id_of(key));
    assert(embedded(u, key, t.id_of(key)));
    assert forall|r: int| #![trigger u.refs[r]] 0 <= r < u.refs.len() implies (a.pictured(
        u.refs[r].0,
        u.refs[r].1,
    ) matches Some((key, _)) && embedded(u, key, u.refs[r].2)) by {
        if r < t.refs.len() {
            assert(u.refs[r] == t.refs[r]);
            let (s, b, id): (u32, u32, u16) = t.refs[r];
            lemma_embedded(t, u, (a.pictured(s, b)->0).0, id);
        }
    }
    lemma_ref(u.refs, shape, bitmap, 0);
    assert(u.refs[u.refs.len() - 1].0 == shape && u.refs[u.refs.len() - 1].1 == bitmap);
}

/// A reference that is known stays known.
proof fn lemma_known(t: building::Table, u: building::Table, shape: u32, bitmap: u32)
    requires
        extends(t, u),
        t.character(shape, bitmap) is Some,
    ensures
        u.character(shape, bitmap) is Some,
{
    lemma_ref(t.refs, shape, bitmap, 0);
    lemma_ref(u.refs, shape, bitmap, 0);
    let id = t.character(shape, bitmap)->0;
    let r = choose|r: int| 0 <= r < t.refs.len() && #[trigger] t.refs[r] == (shape, bitmap, id);
    assert(u.refs[r] == t.refs[r]);
}

/// Whether a table knows the image of a unit.
spec fn knows<A: Assets>(t: building::Table, a: &A, shape: u32, u: Batch) -> bool {
    u.style matches Look::Textured { bitmap_character_id, .. } ==> a.pictured(
        shape,
        bitmap_character_id,
    ) is Some ==> t.character(shape, bitmap_character_id) is Some
}

proof fn lemma_collected<A: Assets>(
    t: building::Table,
    a: &A,
    shape: u32,
    units: Seq<Batch>,
    n: nat,
)
    requires
        truthful(t, a),
        n <= units.len(),
    ensures
        ({
            let u = building::collect(t, a, shape, units, n);
            &&& truthful(u, a)
            &&& extends(t, u)
            &&& forall|k: int| 0 <= k < n ==> knows(u, a, shape, #[trigger] units[k])
        }),
    decreases n,
{
    if n > 0 {
        lemma_collected(t, a, shape, units, (n - 1) as nat);
        let u = building::collect(t, a, shape, units, (n - 1) as nat);
        let w = building::collect(t, a, shape, units, n);
        if let Look::Textured { bitmap_character_id: b, .. } = units[n - 1].style {
            if u.character(shape, b) is None {
                if let Some((key, x)) = a.pictured(shape, b) {
                    lemma_entered(u, a, shape, b, key, x);
                }
            }
        }
        assert(extends(u, w));
        assert forall|k: int| 0 <= k < n implies knows(w, a, shape, #[trigger] units[k]) by {
            if k < n - 1 {
                assert(knows(u, a, shape, units[k]));
                if let Look::Textured { bitmap_character_id: b, .. } = units[k].style {
                    if u.character(shape, b) is Some {
                        lemma_known(u, w, shape, b);
                    }
                }
            }
        }
    }
}

proof fn lemma_fill<A: Assets>(
    t: building::Table,
    last: building::Table,
    a: &A,
    shape: u32,
    u: Batch,
)
    requires
        truthful(t, a),
        extends(t, last),
        knows(t, a, shape, u),
    ensures
        same_fill(building::fill_of(t, shape, u), u, shape, a, last),
{
    law_color(building::color_of(u.style));
    if let Look::Textured { bitmap_character_id: b, .. } = u.style {
        lemma_ref(t.refs, shape, b, 0);
        if let Some(id) = t.character(shape, b) {
            let r = choose|r: int| 0 <= r < t.refs.len() && #[trigger] t.refs[r] == (shape, b, id);
            assert(t.refs[r] == (shape, b, id));
            lemma_embedded(t, last, (a.pictured(shape, b)->0).0, id);
        }
    }
}

proof fn lemma_extends(t: building::Table, u: building::Table, w: building::Table)
    requires
        extends(t, u),
        extends(u, w),
    ensures
        extends(t, w),
{
    assert forall|l: int| 0 <= l < t.loaded.len() implies t.loaded[l] == #[trigger] w.loaded[l] by {
        assert(u.loaded[l] == w.loaded[l]);
    }
    assert forall|r: int| 0 <= r < t.refs.len() implies t.refs[r] == #[trigger] w.refs[r] by {
        assert(u.refs[r] == w.refs[r]);
    }
}

/// One character more.
proof fn lemma_step<A: Assets>(m: Movie, a: &A, n: nat)
    requires
        n < m.characters.len(),
        truthful(building::drawn(m, a, n).table, a),
    ensures
        truthful(building::drawn(m, a, n + 1).table, a),
        extends(building::drawn(m, a, n).table, building::drawn(m, a, n + 1).table),
{
    let d = building::drawn(m, a, n);
    match m.characters[n as int] {
        CharacterSlot::Character(Character::Shape(_)) => {
            let units = building::units_of(a, n as u32);
            lemma_collected(d.table, a, n as u32, units, units.len());
        },
        CharacterSlot::Character(Character::Bitmap) => {
            if let Some((key, x)) = a.pictured(n as u32, n as u32) {
                lemma_entered(d.table, a, n as u32, n as u32, key, x);
            }
        },
        _ => {},
    }
}

/// Every image that a movie embeds is one that is supplied, and every reference to an
/// image leads to the one that is supplied for it.
pub proof fn law_images<A: Assets>(m: Movie, a: &A, n: nat)
    requires
        n <= m.characters.len(),
    ensures
        truthful(building::drawn(m, a, n).table, a),
    decreases n,
{
    if n > 0 {
        law_images(m, a, (n - 1) as nat);
        lemma_step(m, a, (n - 1) as nat);
    }
}

proof fn lemma_later<A: Assets>(m: Movie, a: &A, i: nat, n: nat)
    requires
        i <= n <= m.characters.len(),
    ensures
        extends(building::drawn(m, a, i).table, building::drawn(m, a, n).table),
    decreases n - i,
{
    if i < n {
        lemma_later(m, a, i, (n - 1) as nat);
        law_images(m, a, (n - 1) as nat);
        lemma_step(m, a, (n - 1) as nat);
        lemma_extends(
            building::drawn(m, a, i).table,
            building::drawn(m, a, (n - 1) as nat).table,
            building::drawn(m, a, n).table,
        );
    }
}

/// The shape that a character becomes.
proof fn lemma_shape<A: Assets>(m: Movie, a: &A, i: nat)
    requires
        i < m.characters.len() <= 0x1_0000,
        m.characters[i as int] is Character,
        m.characters[i as int]->Character_0 is Shape,
    ensures
        ({
            let d = building::drawn(m, a, i + 1);
            same_shape(d.shapes.last(), a, building::drawn(m, a, m.characters.len()).table)
        }),
{
    let last = building::drawn(m, a, m.characters.len()).table;
    let d = building::drawn(m, a, i);
    let units = building::units_of(a, i as u32);
    let table = building::collect(d.table, a, i as u32, units, units.len());
    law_images(m, a, i);
    lemma_collected(d.table, a, i as u32, units, units.len());
    lemma_later(m, a, i + 1, m.characters.len());
    assert(table == building::drawn(m, a, i + 1).table);
    let s = building::drawn(m, a, i + 1).shapes.last();
    assert(s.id == i);
    assert forall|k: int| 0 <= k < units.len() implies same_fill(
        #[trigger] s.fills[k],
        units[k],
        i as u32,
        a,
        last,
    ) by {
        assert(knows(table, a, i as u32, units[k]));
        lemma_fill(table, last, a, i as u32, units[k]);
    }
    if units.len() <= u32::MAX {
        lemma_outlines(units, units.len());
    }
}

proof fn lemma_shapes<A: Assets>(m: Movie, a: &A, instead: Option<u32>, texts: Texts, n: nat)
    requires
        n <= m.characters.len() <= 0x1_0000,
    ensures
        fine(building::shape_tags(building::drawn(m, a, n).shapes), 2, m, a, instead, texts),
        forall|i: int|
            0 <= i < n && (#[trigger] m.characters[i] matches CharacterSlot::Character(
                Character::Shape(_),
            )) ==> given(building::shape_tags(building::drawn(m, a, n).shapes), i),
    decreases n,
{
    if n > 0 {
        lemma_shapes(m, a, instead, texts, (n - 1) as nat);
        let before = building::shape_tags(building::drawn(m, a, (n - 1) as nat).shapes);
        let v = building::shape_tags(building::drawn(m, a, n).shapes);
        lemma_still(before, v);
        if let CharacterSlot::Character(Character::Shape(_)) = m.characters[n - 1] {
            lemma_shape(m, a, (n - 1) as nat);
            let s = building::drawn(m, a, n).shapes.last();
            assert(v =~= before.push(Definition::Shape(s)));
            assert(defines(Definition::Shape(s), m, a, instead, texts)) by {
                reveal(defines);
            }
            lemma_pushed(before, Definition::Shape(s), 2, m, a, instead, texts);
            assert(id_of(v[v.len() - 1]) == Some((n - 1) as u16));
        } else {
            assert(v =~= before);
        }
    }
}

proof fn lemma_wholes<A: Assets>(m: Movie, a: &A, instead: Option<u32>, texts: Texts, n: nat)
    requires
        n <= m.characters.len() <= 0x1_0000,
    ensures
        fine(building::whole_bitmaps(building::drawn(m, a, n).bitmaps), 3, m, a, instead, texts),
        forall|i: int|
            0 <= i < n && #[trigger] m.characters[i] == CharacterSlot::Character(Character::Bitmap)
                && building::is_placed(m, i as u32) && a.pictured(i as u32, i as u32) is Some
                ==> given(building::whole_bitmaps(building::drawn(m, a, n).bitmaps), i),
    decreases n,
{
    if n > 0 {
        let i = (n - 1) as nat;
        lemma_wholes(m, a, instead, texts, i);
        let d = building::drawn(m, a, i);
        let before = building::whole_bitmaps(d.bitmaps);
        let v = building::whole_bitmaps(building::drawn(m, a, n).bitmaps);
        lemma_still(before, v);
        if m.characters[i as int] == CharacterSlot::Character(Character::Bitmap)
            && building::is_placed(m, i as u32) && a.pictured(i as u32, i as u32) is Some {
            let (key, x) = a.pictured(i as u32, i as u32)->0;
            law_images(m, a, i);
            lemma_entered(d.table, a, i as u32, i as u32, key, x);
            lemma_later(m, a, n, m.characters.len());
            lemma_embedded(
                building::drawn(m, a, n).table,
                building::drawn(m, a, m.characters.len()).table,
                key,
                d.table.id_of(key),
            );
            let w = Definition::WholeBitmap {
                id: i as u16,
                texture: d.table.id_of(key),
                width: x.width,
                height: x.height,
            };
            assert(v =~= before.push(w));
            assert(defines(w, m, a, instead, texts)) by {
                reveal(defines);
            }
            lemma_pushed(before, w, 3, m, a, instead, texts);
            assert(id_of(v[v.len() - 1]) == Some(i as u16));
        } else {
            assert(v =~= before);
        }
    }
}

proof fn lemma_pixels(rgba: Seq<u8>)
    ensures
        same_pixels(building::premultiplied(rgba), rgba),
{
    let p = building::premultiplied(rgba);
    assert forall|i: int, c: int|
        #![trigger p[4 * i + c]]
        0 <= i < rgba.len() / 4 && 1 <= c <= 3 implies {
        let share = rgba[4 * i + c - 1] * rgba[4 * i + 3];
        -127 <= 255 * p[4 * i + c] - share <= 127
    } by {
        assert((4 * i + c) / 4 * 4 == 4 * i);
        lemma_share(rgba[4 * i + c - 1], rgba[4 * i + 3]);
    }
}

proof fn lemma_share(c: u8, a: u8)
    ensures
        -127 <= 255 * building::multiplied(c, a) - c * a <= 127,
{
    assert(0 <= c * a <= 255 * 255) by (nonlinear_arith)
        requires
            0 <= c <= 255,
            0 <= a <= 255,
    ;
}

proof fn lemma_bitmaps<A: Assets>(m: Movie, a: &A, instead: Option<u32>, texts: Texts)
    ensures
        fine(
            building::bitmap_tags(building::drawn(m, a, m.characters.len()).table),
            1,
            m,
            a,
            instead,
            texts,
        ),
{
    let table = building::drawn(m, a, m.characters.len()).table;
    let v = building::bitmap_tags(table);
    assert forall|k: int| 0 <= k < v.len() implies defines(#[trigger] v[k], m, a, instead, texts)
        && rank(v[k], m.characters.len()) == 1 by {
        lemma_pixels(table.loaded[k].texture.rgba);
        assert(v[k] == building::bitmap_tag(table.loaded[k]));
        reveal(defines);
    }
}

/// Definitions in their order up to a kind, each of something in a movie.
#[verifier::opaque]
spec fn tidy<A: Assets>(
    v: Seq<Definition>,
    kind: int,
    m: Movie,
    a: &A,
    instead: Option<u32>,
    texts: Texts,
) -> bool {
    &&& forall|k: int|
        0 <= k < v.len() ==> defines(#[trigger] v[k], m, a, instead, texts) && rank(
            v[k],
            m.characters.len(),
        ) <= kind
    &&& forall|i: int, j: int|
        0 <= i < j < v.len() ==> rank(#[trigger] v[i], m.characters.len()) <= rank(
            #[trigger] v[j],
            m.characters.len(),
        )
}

/// Whether definitions stand together in a list.
#[verifier::opaque]
spec fn within(part: Seq<Definition>, v: Seq<Definition>) -> bool {
    exists|off: int|
        0 <= off && off + part.len() <= v.len() && part == #[trigger] v.subrange(
            off,
            off + part.len(),
        )
}

proof fn lemma_within(part: Seq<Definition>, v: Seq<Definition>)
    requires
        within(part, v),
    ensures
        forall|k: int| 0 <= k < part.len() ==> v.contains(#[trigger] part[k]),
        forall|i: int| given(part, i) ==> #[trigger] given(v, i),
{
    reveal(within);
    let off = choose|off: int|
        0 <= off && off + part.len() <= v.len() && part == #[trigger] v.subrange(
            off,
            off + part.len(),
        );
    assert forall|k: int| 0 <= k < part.len() implies v.contains(#[trigger] part[k]) by {
        assert(v[off + k] == part[k]);
    }
    assert forall|i: int| given(part, i) implies #[trigger] given(v, i) by {
        let k = choose|k: int|
            0 <= k < part.len() && (id_of(#[trigger] part[k]) matches Some(x) && x == i);
        assert(v[off + k] == part[k]);
    }
}

proof fn lemma_join<A: Assets>(
    v: Seq<Definition>,
    w: Seq<Definition>,
    low: int,
    kind: int,
    m: Movie,
    a: &A,
    instead: Option<u32>,
    texts: Texts,
)
    requires
        tidy(v, low, m, a, instead, texts),
        low <= kind,
        fine(w, kind, m, a, instead, texts),
    ensures
        tidy(v + w, kind, m, a, instead, texts),
        within(w, v + w),
        forall|p: Seq<Definition>| within(p, v) ==> #[trigger] within(p, v + w),
{
    reveal(tidy);
    reveal(within);
    let u = v + w;
    assert forall|k: int| 0 <= k < u.len() implies defines(#[trigger] u[k], m, a, instead, texts)
        && rank(u[k], m.characters.len()) <= kind by {
        if k < v.len() {
            assert(u[k] == v[k]);
        } else {
            assert(u[k] == w[k - v.len()]);
        }
    }
    assert forall|i: int, j: int| 0 <= i < j < u.len() implies rank(
        #[trigger] u[i],
        m.characters.len(),
    ) <= rank(#[trigger] u[j], m.characters.len()) by {
        if j < v.len() {
            assert(u[i] == v[i] && u[j] == v[j]);
        } else {
            assert(u[j] == w[j - v.len()]);
            if i < v.len() {
                assert(u[i] == v[i]);
            } else {
                assert(u[i] == w[i - v.len()]);
            }
        }
    }
    assert(w =~= u.subrange(v.len() as int, v.len() as int + w.len() as int));
    assert forall|p: Seq<Definition>| within(p, v) implies #[trigger] within(p, u) by {
        let off = choose|off: int|
            0 <= off && off + p.len() <= v.len() && p == #[trigger] v.subrange(off, off + p.len());
        assert(p =~= u.subrange(off, off + p.len()));
    }
}

/// Every tag before the timeline of a movie's SWF file defines something of the movie as
/// it is in the movie, and what is used stands before what uses it.
#[verifier::rlimit(40)]
pub proof fn law_definitions<A: Assets>(f: AptFile, a: &A, instead: Option<u32>, texts: Texts)
    requires
        f.movie.characters.len() <= 0x1_0000,
        f.movie.characters.len() + buttons_before(f.movie, f.movie.characters.len() as int)
            <= 0x1_0000,
    ensures
        ({
            let m = f.movie;
            let v = building::swf(f, a, instead, texts).definitions;
            &&& forall|k: int| 0 <= k < v.len() ==> defines(#[trigger] v[k], m, a, instead, texts)
            &&& forall|i: int, j: int|
                0 <= i < j < v.len() ==> rank(#[trigger] v[i], m.characters.len()) <= rank(
                    #[trigger] v[j],
                    m.characters.len(),
                )
        }),
{
    lemma_whole(f.movie, a, instead, texts);
    reveal(tidy);
}

proof fn lemma_whole<A: Assets>(m: Movie, a: &A, instead: Option<u32>, texts: Texts)
    requires
        m.characters.len() <= 0x1_0000,
        m.characters.len() + buttons_before(m, m.characters.len() as int) <= 0x1_0000,
    ensures
        ({
            let v = building::definitions(m, a, instead, texts);
            let n = m.characters.len();
            let d = building::drawn(m, a, n);
            let b = building::buttons(m, n);
            &&& tidy(v, 9, m, a, instead, texts)
            &&& within(building::import_tags(m.imports), v)
            &&& within(building::bitmap_tags(d.table), v)
            &&& within(building::shape_tags(d.shapes), v)
            &&& within(building::whole_bitmaps(d.bitmaps), v)
            &&& within(building::device_fonts(m, n), v)
            &&& within(building::edit_texts(m, n), v)
            &&& within(building::sprites(m, texts, n), v)
            &&& within(building::button_tags(m, b, texts, b.len()), v)
            &&& within(building::export_tags(m.exports), v)
            &&& within(building::background_tags(m.frames, instead), v)
        }),
{
    let n = m.characters.len();
    let d = building::drawn(m, a, n);
    let b = building::buttons(m, n);
    let v0 = building::import_tags(m.imports);
    let v1 = v0 + building::bitmap_tags(d.table);
    let v2 = v1 + building::shape_tags(d.shapes);
    let v3 = v2 + building::whole_bitmaps(d.bitmaps);
    let v4 = v3 + building::device_fonts(m, n);
    let v5 = v4 + building::edit_texts(m, n);
    let v6 = v5 + building::sprites(m, texts, n);
    let v7 = v6 + building::button_tags(m, b, texts, b.len());
    let v8 = v7 + building::export_tags(m.exports);
    lemma_imports(m, a, instead, texts);
    lemma_bitmaps(m, a, instead, texts);
    lemma_shapes(m, a, instead, texts, n);
    lemma_wholes(m, a, instead, texts, n);
    lemma_fonts(m, a, instead, texts, n);
    lemma_texts(m, a, instead, texts, n);
    lemma_sprites(m, a, instead, texts, n);
    lemma_buttons(m, a, instead, texts, b.len());
    lemma_exports(m, a, instead, texts);
    lemma_backgrounds(m, a, instead, texts);
    assert(tidy(v0, 0, m, a, instead, texts)) by {
        reveal(tidy);
    }
    assert(within(v0, v0)) by {
        reveal(within);
        let off: int = 0;
        assert(v0 =~= v0.subrange(off, off + v0.len()));
    }
    lemma_join(v0, building::bitmap_tags(d.table), 0, 1, m, a, instead, texts);
    lemma_join(v1, building::shape_tags(d.shapes), 1, 2, m, a, instead, texts);
    lemma_join(v2, building::whole_bitmaps(d.bitmaps), 2, 3, m, a, instead, texts);
    lemma_join(v3, building::device_fonts(m, n), 3, 4, m, a, instead, texts);
    lemma_join(v4, building::edit_texts(m, n), 4, 5, m, a, instead, texts);
    lemma_join(v5, building::sprites(m, texts, n), 5, 6, m, a, instead, texts);
    lemma_join(v6, building::button_tags(m, b, texts, b.len()), 6, 7, m, a, instead, texts);
    lemma_join(v7, building::export_tags(m.exports), 7, 8, m, a, instead, texts);
    lemma_join(v8, building::background_tags(m.frames, instead), 8, 9, m, a, instead, texts);
}

/// Whether a character has a definition of its own in a SWF file: shapes, texts, fonts,
/// sprites and buttons do, and bitmaps that are placed and supplied.
pub open spec fn defined<A: Assets>(m: Movie, a: &A, i: int) -> bool {
    m.characters[i] matches CharacterSlot::Character(c) && match c {
        Character::Shape(_) => true,
        Character::Text(_) => true,
        Character::Font(_) => true,
        Character::Sprite(_) => true,
        Character::Button(_) => true,
        Character::Bitmap => building::is_placed(m, i as u32) && a.pictured(
            i as u32,
            i as u32,
        ) is Some,
        _ => false,
    }
}

/// Nothing of a movie is left out of its SWF file: every character that has a definition
/// of its own, the area of every button, every import, the exports and the background.
pub proof fn law_complete<A: Assets>(f: AptFile, a: &A, instead: Option<u32>, texts: Texts)
    requires
        f.movie.characters.len() <= 0x1_0000,
        f.movie.characters.len() + buttons_before(f.movie, f.movie.characters.len() as int)
            <= 0x1_0000,
    ensures
        ({
            let m = f.movie;
            let v = building::swf(f, a, instead, texts).definitions;
            let n = m.characters.len();
            &&& forall|i: int|
                #![trigger m.characters[i]]
                0 <= i < n && defined(m, a, i) ==> given(v, i)
            &&& forall|i: int|
                #![trigger m.characters[i]]
                0 <= i < n && (m.characters[i] matches CharacterSlot::Character(
                    Character::Button(_),
                )) ==> given(v, n + buttons_before(m, i))
            &&& forall|i: int|
                0 <= i < m.imports.len() ==> all_given(v, #[trigger] m.imports[i])
            &&& m.exports.len() > 0 ==> exists|k: int|
                0 <= k < v.len() && #[trigger] v[k] is ExportAssets
            &&& instead is Some || !unpainted(m.frames) ==> exists|k: int|
                0 <= k < v.len() && #[trigger] v[k] is BackgroundColor
        }),
{
    let m = f.movie;
    let n = m.characters.len();
    let v = building::definitions(m, a, instead, texts);
    let d = building::drawn(m, a, n);
    let b = building::buttons(m, n);
    lemma_whole(m, a, instead, texts);
    lemma_within(building::shape_tags(d.shapes), v);
    lemma_within(building::whole_bitmaps(d.bitmaps), v);
    lemma_within(building::device_fonts(m, n), v);
    lemma_within(building::edit_texts(m, n), v);
    lemma_within(building::sprites(m, texts, n), v);
    assert forall|i: int|
        #![trigger m.characters[i]]
        0 <= i < n && defined(m, a, i) implies given(v, i) by {
        lemma_shapes(m, a, instead, texts, n);
        lemma_wholes(m, a, instead, texts, n);
        lemma_fonts(m, a, instead, texts, n);
        lemma_texts(m, a, instead, texts, n);
        lemma_sprites(m, a, instead, texts, n);
        if m.characters[i]->Character_0 is Button {
            lemma_both(m, a, instead, texts, i);
        }
    }
    assert forall|i: int|
        #![trigger m.characters[i]]
        0 <= i < n && (m.characters[i] matches CharacterSlot::Character(
            Character::Button(_),
        )) implies given(v, n + buttons_before(m, i)) by {
        lemma_both(m, a, instead, texts, i);
    }
    assert forall|i: int| 0 <= i < m.imports.len() implies all_given(
        v,
        #[trigger] m.imports[i],
    ) by {
        lemma_imports(m, a, instead, texts);
        let w = building::import_tags(m.imports);
        lemma_within(w, v);
        let k = choose|k: int| 0 <= k < w.len() && imports(#[trigger] w[k], m.imports[i]);
        let j = choose|j: int| 0 <= j < v.len() && v[j] == w[k];
        assert(imports(v[j], m.imports[i]));
    }
    let e = building::export_tags(m.exports);
    lemma_within(e, v);
    if m.exports.len() > 0 {
        assert(v.contains(e[0]));
        let k = choose|k: int| 0 <= k < v.len() && v[k] == e[0];
        assert(v[k] is ExportAssets);
    }
    let g = building::background_tags(m.frames, instead);
    lemma_within(g, v);
    lemma_backgrounds(m, a, instead, texts);
    if instead is Some || !unpainted(m.frames) {
        assert(v.contains(g[0]));
        let k = choose|k: int| 0 <= k < v.len() && v[k] == g[0];
        assert(v[k] is BackgroundColor);
    }
    assert(building::swf(f, a, instead, texts).definitions == v);
}

/// Whether no frame sets a background color.
pub open spec fn unpainted(v: Seq<Frame>) -> bool {
    forall|k: int, l: int|
        #![trigger v[k].controls[l]]
        0 <= k < v.len() && 0 <= l < v[k].controls.len() ==> !(v[k].controls[l] is BackgroundColor)
}

proof fn lemma_both<A: Assets>(m: Movie, a: &A, instead: Option<u32>, texts: Texts, i: int)
    requires
        m.characters.len() <= 0x1_0000,
        m.characters.len() + buttons_before(m, m.characters.len() as int) <= 0x1_0000,
        0 <= i < m.characters.len(),
        m.characters[i] is Character,
        m.characters[i]->Character_0 is Button,
    ensures
        given(building::definitions(m, a, instead, texts), i),
        given(
            building::definitions(m, a, instead, texts),
            m.characters.len() + buttons_before(m, i),
        ),
{
    let v = building::definitions(m, a, instead, texts);
    let b = building::buttons(m, m.characters.len());
    let w = building::button_tags(m, b, texts, b.len());
    let j = buttons_before(m, i);
    lemma_whole(m, a, instead, texts);
    lemma_within(w, v);
    assert(0 <= j < b.len() && b[j].0 == i) by {
        lemma_button_list(m, m.characters.len());
    }
    lemma_buttons(m, a, instead, texts, b.len());
    assert(paired(w, m.characters.len() as int, b[j], j));
    assert(given(w, i)) by {
        assert(id_of(w[2 * j + 1]) == Some(b[j].0));
    }
    assert(given(w, m.characters.len() + j)) by {
        assert(id_of(w[2 * j]) is Some);
    }
}

/// A SWF file shows a movie's frames at the movie's pace on a stage of the movie's size:
/// as many frames in a second as there are of the movie's milliseconds per frame, cut to
/// 1/256, and thirty where the movie says none. No stage is without extent, and no
/// version is older than what the code of a movie takes.
pub proof fn law_stage<A: Assets>(f: AptFile, a: &A, instead: Option<u32>, texts: Texts)
    ensures
        ({
            let m = f.movie;
            let s = building::swf(f, a, instead, texts);
            &&& m.width >= 1 ==> s.width == m.width
            &&& m.height >= 1 ==> s.height == m.height
            &&& s.width >= 1 && s.height >= 1
            &&& s.version >= 6
            &&& f.header.swf_version >= 6 ==> s.version == f.header.swf_version
            &&& m.frames.len() <= 0xFFFF ==> s.num_frames == m.frames.len()
            &&& same_timeline(s.timeline, m.frames, texts)
            &&& m.ms_per_frame == 0 ==> s.frame_rate == 30 * 256
            &&& 0 < m.ms_per_frame ==> s.frame_rate * m.ms_per_frame <= 256 * 1000
            &&& 8 <= m.ms_per_frame ==> 256 * 1000 < (s.frame_rate + 1) * m.ms_per_frame
        }),
{
    let m = f.movie;
    law_timeline(m.frames, texts);
    let ms = m.ms_per_frame as int;
    if ms > 0 {
        let q = 256_000int / ms;
        assert(q * ms <= 256_000 < (q + 1) * ms && q >= 0) by (nonlinear_arith)
            requires
                ms > 0,
                q == 256_000int / ms,
        ;
        let r = building::frame_rate(m.ms_per_frame) as int;
        if q > i16::MAX {
            assert(r * ms <= q * ms) by (nonlinear_arith)
                requires
                    r <= q,
                    ms > 0,
            ;
            assert(ms < 8) by (nonlinear_arith)
                requires
                    q * ms <= 256_000,
                    q > 32767,
                    ms > 0,
            ;
        }
    }
}

} // verus!
