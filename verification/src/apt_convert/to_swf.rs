//! Build a standard, viewable SWF from a parsed APT movie.
//!
//! APT shape geometry is pre-tessellated triangle lists (in the aux `.ru`
//! files); each triangle becomes a closed, filled path. Textured triangles become
//! bitmap fills when the [`Assets`] supply the images, and fall back to their
//! vertex color as a solid fill otherwise.
use super::assets::Assets;
use super::avm1::Texts;
use super::building;
use super::bytecode::apt_to_swf_actions;
use super::swf_model as scene;
use super::swf_movie::{
    Asset, ButtonActionTag, ButtonRecordTag, ButtonTag, ClipHandler, Definition, EditTextTag,
    Fill, Outline, Place, PlaceAction, Rgba, ShapeTag, SwfMovie, TimelineTag,
};
use super::swf_read::FixedColors;
use super::zlib;
use super::{Error, Trouble};
use crate::apt::copies;
use crate::apt::model;
use crate::apt::types::{
    Button, ButtonAction, ButtonRecord, Character, CharacterSlot, Control, EventAction, Export,
    F32Bits, FloatCxForm, Frame, Import, Matrix, Movie, PackedCxForm, PlaceObject, Rect, Text,
};
use crate::apt::AptFile;
use crate::apt_aux::ru::{batches, RenderUnit, Style};
use crate::apt_aux::texture::Texture;
use crate::text;
use vstd::prelude::*;

verus! {

/// The channels of a packed color.
pub fn unpack_color(c: u32) -> (r: Rgba)
    ensures
        r == building::rgba(c),
{
    Rgba {
        b: (c % 0x100) as u8,
        g: (c / 0x100 % 0x100) as u8,
        r: (c / 0x1_0000 % 0x100) as u8,
        a: (c / 0x100_0000) as u8,
    }
}

/// A byte as a factor in 1/256, cut to a whole number: 254 stands for one.
pub fn scale_factor(b: u8) -> (v: i16)
    ensures
        v == building::scale_factor(b),
{
    (b as u32 * 256 / 254) as i16
}

/// A packed color transform in fixed-point numbers.
pub fn cxform_to_swf(c: PackedCxForm) -> (r: FixedColors)
    ensures
        r == building::fixed_colors(c),
{
    let s = unpack_color(c.scale);
    let b = unpack_color(c.bias);
    FixedColors {
        r_multiply: scale_factor(s.r),
        g_multiply: scale_factor(s.g),
        b_multiply: scale_factor(s.b),
        a_multiply: scale_factor(s.a),
        r_add: b.r as i16,
        g_add: b.g as i16,
        b_add: b.b as i16,
        a_add: b.a as i16,
    }
}

/// The imports from one movie.
struct Group {
    movie: String,
    assets: Vec<Asset>,
}

impl View for Group {
    type V = (Seq<char>, Seq<scene::Asset>);

    closed spec fn view(&self) -> (Seq<char>, Seq<scene::Asset>) {
        (self.movie@, model::views(self.assets@))
    }
}

fn group_of(groups: &Vec<Group>, movie: &str) -> (k: usize)
    ensures
        k == building::group_of(model::views(groups@), movie@, 0),
{
    let ghost g = model::views(groups@);
    let mut k: usize = 0;
    while k < groups.len()
        invariant
            k <= groups@.len(),
            g == model::views(groups@),
            building::group_of(g, movie@, k as int) == building::group_of(g, movie@, 0),
        decreases groups@.len() - k,
    {
        assert(g[k as int] == groups@[k as int]@);
        if text::same_text(groups[k].movie.as_str(), movie) {
            return k;
        }
        k = k + 1;
    }
    k
}

proof fn lemma_group_of(g: Seq<(Seq<char>, Seq<scene::Asset>)>, movie: Seq<char>, k: int)
    requires
        0 <= k <= g.len(),
    ensures
        k <= building::group_of(g, movie, k) <= g.len(),
        building::group_of(g, movie, k) < g.len() ==> g[building::group_of(g, movie, k)].0 == movie,
    decreases g.len() - k,
{
    if k < g.len() && g[k].0 != movie {
        lemma_group_of(g, movie, k + 1);
    }
}

/// Group imports by source movie, preserving first-seen order.
fn group_imports(imports: &Vec<Import>) -> (groups: Vec<Group>)
    ensures
        model::views(groups@) == building::groups(model::views(imports@), imports@.len()),
{
    let ghost v = model::views(imports@);
    let mut groups: Vec<Group> = Vec::new();
    let mut i: usize = 0;
    assert(model::views(groups@) =~= building::groups(v, 0));
    while i < imports.len()
        invariant
            i <= imports@.len(),
            v == model::views(imports@),
            model::views(groups@) == building::groups(v, i as nat),
        decreases imports@.len() - i,
    {
        let ghost g = model::views(groups@);
        let import = &imports[i];
        let k: usize = group_of(&groups, import.movie.as_str());
        let asset = Asset { id: import.character_id as u16, name: import.name.clone() };
        proof {
            lemma_group_of(g, import.movie@, 0);
            assert(v[i as int] == import@);
        }
        if k < groups.len() {
            assert(g[k as int] == groups@[k as int]@);
            let ghost before = groups@[k as int].assets@;
            groups[k].assets.push(asset);
            proof {
                assert(model::views(before.push(asset)) =~= model::views(before).push(asset@));
                assert(groups@[k as int]@ == (g[k as int].0, g[k as int].1.push(asset@)));
                assert(model::views(groups@) =~= building::groups(v, (i + 1) as nat));
            }
        } else {
            let mut assets: Vec<Asset> = Vec::new();
            assets.push(asset);
            assert(model::views(assets@) =~= seq![asset@]);
            groups.push(Group { movie: import.movie.clone(), assets });
            assert(model::views(groups@) =~= building::groups(v, (i + 1) as nat));
        }
        i = i + 1;
    }
    groups
}

fn push_imports(out: &mut Vec<Definition>, imports: &Vec<Import>)
    ensures
        model::views(final(out)@) == model::views(old(out)@) + building::import_tags(
            model::views(imports@),
        ),
{
    let groups = group_imports(imports);
    let ghost g = model::views(groups@);
    let ghost all = building::import_tags(model::views(imports@));
    let ghost before = model::views(out@);
    let mut i: usize = 0;
    assert(before + all.take(0) =~= before);
    while i < groups.len()
        invariant
            i <= groups@.len(),
            g == model::views(groups@),
            g == building::groups(model::views(imports@), imports@.len()),
            all == building::import_tags(model::views(imports@)),
            model::views(out@) == before + all.take(i as int),
        decreases groups@.len() - i,
    {
        let mut url = groups[i].movie.clone();
        text::push_text(&mut url, ".swf");
        let assets = duplicate_assets(&groups[i].assets);
        let ghost seen = out@;
        out.push(Definition::ImportAssets { url, assets });
        proof {
            assert(g[i as int] == groups@[i as int]@);
            assert(out@[i + before.len()]@ == all[i as int]) by {
                assert(model::views(seen).len() == seen.len());
            }
            assert(model::views(out@) =~= before + all.take(i + 1)) by {
                assert(model::views(out@) =~= model::views(seen).push(all[i as int]));
                assert((before + all.take(i as int)).push(all[i as int]) =~= before + all.take(
                    i + 1,
                ));
            }
        }
        i = i + 1;
    }
    assert(all.take(i as int) =~= all);
}

fn duplicate_assets(v: &Vec<Asset>) -> (out: Vec<Asset>)
    ensures
        model::views(out@) == model::views(v@),
{
    let mut out: Vec<Asset> = Vec::new();
    let mut i: usize = 0;
    while i < v.len()
        invariant
            i <= v@.len(),
            out@.len() == i,
            forall|k: int| 0 <= k < i ==> (#[trigger] out@[k])@ == v@[k]@,
        decreases v@.len() - i,
    {
        out.push(Asset { id: v[i].id, name: v[i].name.clone() });
        i = i + 1;
    }
    assert(model::views(out@) =~= model::views(v@));
    out
}

/// The tag that makes the exported characters importable.
fn push_exports(out: &mut Vec<Definition>, exports: &Vec<Export>)
    ensures
        model::views(final(out)@) == model::views(old(out)@) + building::export_tags(
            model::views(exports@),
        ),
{
    let ghost before = model::views(out@);
    if exports.len() == 0 {
        assert(model::views(out@) =~= before + building::export_tags(model::views(exports@)));
        return;
    }
    let mut assets: Vec<Asset> = Vec::new();
    let mut i: usize = 0;
    while i < exports.len()
        invariant
            i <= exports@.len(),
            assets@.len() == i,
            forall|k: int|
                0 <= k < i ==> (#[trigger] assets@[k])@ == building::export_assets(
                    model::views(exports@),
                )[k],
        decreases exports@.len() - i,
    {
        assets.push(Asset { id: exports[i].character_id as u16, name: exports[i].name.clone() });
        i = i + 1;
    }
    proof {
        assert(model::views(assets@) =~= building::export_assets(model::views(exports@)));
    }
    out.push(Definition::ExportAssets(assets));
    assert(model::views(out@) =~= before + building::export_tags(model::views(exports@)));
}

fn controls_place(controls: &Vec<Control>, id: u32) -> (b: bool)
    ensures
        b == exists|j: int|
            0 <= j < controls@.len() && building::control_places(
                (#[trigger] model::views(controls@)[j]),
                id,
            ),
{
    let ghost v = model::views(controls@);
    let mut j: usize = 0;
    while j < controls.len()
        invariant
            j <= controls@.len(),
            v == model::views(controls@),
            forall|k: int| 0 <= k < j ==> !building::control_places(#[trigger] v[k], id),
        decreases controls@.len() - j,
    {
        assert(v[j as int] == controls@[j as int]@);
        match &controls[j] {
            Control::PlaceObject(p) => match p.character_id {
                Some(c) => if c as i64 == id as i64 {
                    assert(building::control_places(v[j as int], id));
                    return true;
                },
                None => {},
            },
            _ => {},
        }
        assert(!building::control_places(v[j as int], id));
        j = j + 1;
    }
    false
}

fn frames_place(frames: &Vec<Frame>, id: u32) -> (b: bool)
    ensures
        b == building::frames_place(model::views(frames@), id),
{
    let ghost v = model::views(frames@);
    let mut i: usize = 0;
    while i < frames.len()
        invariant
            i <= frames@.len(),
            v == model::views(frames@),
            forall|k: int, j: int|
                0 <= k < i && 0 <= j < v[k].controls.len() ==> !building::control_places(
                    #[trigger] v[k].controls[j],
                    id,
                ),
        decreases frames@.len() - i,
    {
        assert(v[i as int] == frames@[i as int]@);
        let found = controls_place(&frames[i].controls, id);
        if found {
            proof {
                let c = v[i as int].controls;
                let j = choose|j: int|
                    0 <= j < c.len() && building::control_places(#[trigger] c[j], id);
                assert(building::control_places(v[i as int].controls[j], id));
            }
            return true;
        }
        i = i + 1;
    }
    false
}

/// Whether a character is referenced by a `PlaceObject` anywhere in the movie -
/// its root timeline or any sprite's.
fn is_placed(movie: &Movie, id: u32) -> (b: bool)
    ensures
        b == building::is_placed(movie@, id),
{
    if frames_place(&movie.frames, id) {
        return true;
    }
    let ghost m = movie@;
    let mut k: usize = 0;
    while k < movie.characters.len()
        invariant
            k <= movie.characters@.len(),
            m == movie@,
            !building::frames_place(m.frames, id),
            forall|i: int| 0 <= i < k ==> !building::slot_places(#[trigger] m.characters[i], id),
        decreases movie.characters@.len() - k,
    {
        assert(m.characters[k as int] == movie.characters@[k as int]@);
        match &movie.characters[k] {
            CharacterSlot::Character(Character::Sprite(sprite)) => {
                if frames_place(&sprite.frames, id) {
                    assert(building::slot_places(m.characters[k as int], id));
                    return true;
                }
            },
            _ => {},
        }
        assert(!building::slot_places(m.characters[k as int], id));
        k = k + 1;
    }
    false
}

/// A texture with its identity and the character it becomes.
struct Loaded<'a> {
    key: &'a String,
    id: u16,
    texture: &'a Texture,
}

impl<'a> View for Loaded<'a> {
    type V = building::Loaded;

    closed spec fn view(&self) -> building::Loaded {
        building::Loaded { key: self.key@, id: self.id, texture: self.texture@ }
    }
}

/// The textures a movie references, each assigned a SWF character id.
///
/// Bitmap characters that share a texture (a packed atlas) share one entry, so
/// the image data is embedded once.
struct BitmapTable<'a> {
    next_id: u16,
    loaded: Vec<Loaded<'a>>,
    /// Shape index, bitmap character id, SWF character id. The bitmap id alone
    /// isn't unique once characters from several movies are inlined.
    refs: Vec<(u32, u32, u16)>,
}

impl<'a> View for BitmapTable<'a> {
    type V = building::Table;

    closed spec fn view(&self) -> building::Table {
        building::Table {
            next_id: self.next_id,
            loaded: model::views(self.loaded@),
            refs: self.refs@,
        }
    }
}

proof fn lemma_key_index(v: Seq<building::Loaded>, key: Seq<char>, k: int)
    requires
        0 <= k <= v.len(),
    ensures
        k <= building::key_index(v, key, k) <= v.len(),
    decreases v.len() - k,
{
    if k < v.len() && v[k].key != key {
        lemma_key_index(v, key, k + 1);
    }
}

impl<'a> BitmapTable<'a> {
    fn new(next_id: u16) -> (t: BitmapTable<'a>)
        ensures
            t@ == building::Table::new(next_id),
    {
        let t = BitmapTable { next_id, loaded: Vec::new(), refs: Vec::new() };
        assert(t@.loaded =~= Seq::<building::Loaded>::empty());
        assert(t@.refs =~= Seq::<(u32, u32, u16)>::empty());
        t
    }

    fn key_index(&self, key: &str) -> (k: usize)
        ensures
            k == building::key_index(self@.loaded, key@, 0),
            k <= self@.loaded.len(),
    {
        let ghost v = self@.loaded;
        let mut k: usize = 0;
        while k < self.loaded.len()
            invariant
                k <= self.loaded@.len(),
                v == self@.loaded,
                building::key_index(v, key@, k as int) == building::key_index(v, key@, 0),
            decreases self.loaded@.len() - k,
        {
            assert(v[k as int] == self.loaded@[k as int]@);
            if text::same_text(self.loaded[k].key.as_str(), key) {
                return k;
            }
            k = k + 1;
        }
        k
    }

    /// Registers a reference to an image. Returns its SWF id.
    fn enter(&mut self, shape: u32, bitmap: u32, key: &'a String, texture: &'a Texture) -> (id: u16)
        ensures
            final(self)@ == old(self)@.enter(shape, bitmap, key@, texture@),
            id == old(self)@.id_of(key@),
    {
        let ghost before = self@;
        let k: usize = self.key_index(key.as_str());
        let id: u16;
        if k < self.loaded.len() {
            assert(before.loaded[k as int] == self.loaded@[k as int]@);
            id = self.loaded[k].id;
        } else {
            id = self.next_id;
            self.next_id = ((self.next_id as u32 + 1) % 0x1_0000) as u16;
            assert(self.next_id == (before.next_id + 1) as u16) by {
                let n = before.next_id;
                assert((n + 1) as u16 == (n + 1) % 0x1_0000) by (bit_vector);
            }
            let l = Loaded { key, id, texture };
            let ghost old_loaded = self.loaded@;
            self.loaded.push(l);
            assert(model::views(self.loaded@) =~= model::views(old_loaded).push(l@));
        }
        self.refs.push((shape, bitmap, id));
        id
    }

    fn character(&self, shape: u32, bitmap: u32) -> (r: Option<u16>)
        ensures
            r == self@.character(shape, bitmap),
    {
        let mut k: usize = 0;
        while k < self.refs.len()
            invariant
                k <= self.refs@.len(),
                building::ref_id(self.refs@, shape, bitmap, k as int) == building::ref_id(
                    self.refs@,
                    shape,
                    bitmap,
                    0,
                ),
            decreases self.refs@.len() - k,
        {
            let r = self.refs[k];
            if r.0 == shape && r.1 == bitmap {
                return Some(r.2);
            }
            k = k + 1;
        }
        None
    }

    /// Load and register every texture `shape`'s geometry references.
    fn collect<A: Assets>(&mut self, shape: u32, units: &Vec<RenderUnit>, assets: &'a A)
        ensures
            final(self)@ == building::collect(
                old(self)@,
                assets,
                shape,
                batches(units@),
                units@.len(),
            ),
    {
        let ghost t = self@;
        let ghost v = batches(units@);
        let mut i: usize = 0;
        while i < units.len()
            invariant
                i <= units@.len(),
                v == batches(units@),
                self@ == building::collect(t, assets, shape, v, i as nat),
            decreases units@.len() - i,
        {
            assert(v[i as int] == units@[i as int]@);
            match &units[i].style {
                Style::Textured { bitmap_character_id, .. } => {
                    if self.character(shape, *bitmap_character_id).is_none() {
                        match assets.texture(shape, *bitmap_character_id) {
                            Some((key, texture)) => {
                                self.enter(shape, *bitmap_character_id, key, texture);
                            },
                            None => {},
                        }
                    }
                },
                _ => {},
            }
            i = i + 1;
        }
    }
}

fn fill_of(table: &BitmapTable, shape: u32, unit: &RenderUnit) -> (f: Fill)
    ensures
        f@ == building::fill_of(table@, shape, unit@),
{
    match &unit.style {
        Style::Solid { color } => Fill::Color(unpack_color(*color)),
        Style::Line { color, .. } => Fill::Color(unpack_color(*color)),
        Style::Textured { color, bitmap_character_id, matrix, clipped } => match table.character(
            shape,
            *bitmap_character_id,
        ) {
            Some(id) => Fill::Bitmap {
                id,
                uv: *matrix,
                repeating: !*clipped,
                instead: unpack_color(*color),
            },
            None => Fill::Color(unpack_color(*color)),
        },
    }
}

/// The triangles of a unit.
fn push_triangles(out: &mut Vec<Outline>, fill: u32, v: &Vec<(F32Bits, F32Bits)>)
    ensures
        model::views(final(out)@) == model::views(old(out)@) + building::triangles(fill, v@),
{
    let ghost before = model::views(out@);
    let ghost all = building::triangles(fill, v@);
    let total: usize = v.len();
    let count: usize = total / 3;
    let mut t: usize = 0;
    assert(before + all.take(0) =~= before);
    while t < count
        invariant
            t <= count,
            count == total / 3,
            total == v@.len(),
            all == building::triangles(fill, v@),
            model::views(out@) == before + all.take(t as int),
        decreases count - t,
    {
        let mut points: Vec<(F32Bits, F32Bits)> = Vec::new();
        points.push(v[3 * t]);
        points.push(v[3 * t + 1]);
        points.push(v[3 * t + 2]);
        assert(points@ =~= v@.subrange(3 * t, 3 * t + 3));
        let o = Outline { fill, points };
        let ghost seen = out@;
        out.push(o);
        proof {
            assert(o@ == all[t as int]);
            assert(model::views(out@) =~= model::views(seen).push(o@));
            assert((before + all.take(t as int)).push(o@) =~= before + all.take(t + 1));
        }
        t = t + 1;
    }
    assert(all.take(t as int) =~= all);
}

/// Build a filled SWF shape from a triangle-list geometry.
fn build_shape(id: u16, units: &Vec<RenderUnit>, bounds: Rect, table: &BitmapTable) -> (s: ShapeTag)
    ensures
        s@ == building::shape_tag(id, batches(units@), bounds, table@),
{
    let ghost v = batches(units@);
    let mut fills: Vec<Fill> = Vec::new();
    let mut outlines: Vec<Outline> = Vec::new();
    let mut i: usize = 0;
    assert(model::views(outlines@) =~= building::outlines(v, 0));
    while i < units.len()
        invariant
            i <= units@.len(),
            v == batches(units@),
            fills@.len() == i,
            forall|k: int|
                0 <= k < i ==> (#[trigger] fills@[k])@ == building::fill_of(
                    table@,
                    id as u32,
                    v[k],
                ),
            model::views(outlines@) == building::outlines(v, i as nat),
        decreases units@.len() - i,
    {
        assert(v[i as int] == units@[i as int]@);
        fills.push(fill_of(table, id as u32, &units[i]));
        push_triangles(&mut outlines, fills.len() as u32, &units[i].vertices);
        i = i + 1;
    }
    let s = ShapeTag { id, bounds, fills, outlines };
    assert(s@.fills =~= building::shape_tag(id, v, bounds, table@).fills);
    s
}

/// EditText -> DefineEditText, in a device font of its size.
fn build_edit_text(movie: &Movie, id: u16, t: &Text) -> (r: EditTextTag)
    ensures
        r@ == building::edit_text(movie@, id, t@),
{
    let font = if has_font(movie, t.font_id) {
        Some((t.font_id as u16, t.font_height))
    } else {
        None
    };
    EditTextTag {
        id,
        bounds: t.bounds,
        font,
        color: unpack_color(t.color),
        align: t.alignment,
        read_only: t.read_only,
        multiline: t.multiline,
        word_wrap: t.word_wrap,
        initial_text: unless_empty(&t.initial_text),
        variable: unless_empty(&t.variable),
    }
}

fn has_font(movie: &Movie, id: i32) -> (b: bool)
    ensures
        b == building::is_font(movie@, id),
{
    if id < 0 || id as u64 >= movie.characters.len() as u64 {
        return false;
    }
    let k: usize = id as usize;
    assert(movie@.characters[k as int] == movie.characters@[k as int]@);
    match &movie.characters[k] {
        CharacterSlot::Character(Character::Font(_)) => true,
        _ => false,
    }
}

fn unless_empty(s: &String) -> (r: Option<String>)
    ensures
        super::swf_movie::text_of(r) == building::unless_empty(s@),
{
    if text::same_text(s.as_str(), "") {
        proof {
            reveal_strlit("");
        }
        None
    } else {
        proof {
            reveal_strlit("");
            if s@.len() == 0 {
                assert(s@ =~= ""@);
            }
        }
        Some(s.clone())
    }
}

/// The blend mode of a placement, where SWF has it.
fn blend(v: Option<i32>) -> (r: Option<u8>)
    ensures
        r == building::blend(v),
{
    match v {
        Some(b) => if b == 1 {
            Some(0)
        } else if 0 <= b && b <= 14 {
            Some(b as u8)
        } else {
            None
        },
        None => None,
    }
}

proof fn lemma_handlers_err(v: Seq<model::EventAction>, t: Texts, i: nat, n: nat)
    requires
        i <= n,
        building::handlers_err(v, t, i) is Some,
    ensures
        building::handlers_err(v, t, n) == building::handlers_err(v, t, i),
    decreases n - i,
{
    if i < n {
        lemma_handlers_err(v, t, i, (n - 1) as nat);
    }
}

fn build_handlers(blocks: &Vec<EventAction>, texts: &[(F32Bits, String)]) -> (r: Result<
    Vec<ClipHandler>,
    Error,
>)
    ensures
        ({
            let t = model::reg_names(texts@);
            let v = model::views(blocks@);
            match r {
                Ok(h) => building::handlers_err(v, t, v.len()) is None && model::views(h@)
                    == building::handlers(v, t),
                Err(e) => building::handlers_err(v, t, v.len()) == Some(e@),
            }
        }),
{
    let ghost t = model::reg_names(texts@);
    let ghost v = model::views(blocks@);
    let mut out: Vec<ClipHandler> = Vec::new();
    let mut i: usize = 0;
    while i < blocks.len()
        invariant
            i <= blocks@.len(),
            t == model::reg_names(texts@),
            v == model::views(blocks@),
            building::handlers_err(v, t, i as nat) is None,
            out@.len() == i,
            forall|k: int| 0 <= k < i ==> (#[trigger] out@[k])@ == building::handler(v[k], t),
        decreases blocks@.len() - i,
    {
        let b = &blocks[i];
        assert(v[i as int] == b@);
        let code = match apt_to_swf_actions(&b.actions, texts) {
            Ok(code) => code,
            Err(e) => {
                proof {
                    lemma_handlers_err(v, t, (i + 1) as nat, v.len());
                }
                return Err(e);
            },
        };
        let key_code = if b.key_code != 0 {
            Some(b.key_code as u8)
        } else {
            None
        };
        out.push(ClipHandler { events: (b.triggers as u32) % 0x8_0000, key_code, code });
        i = i + 1;
    }
    assert(model::views(out@) =~= building::handlers(v, t));
    Ok(out)
}

fn build_place(p: &PlaceObject, texts: &[(F32Bits, String)]) -> (r: Result<Place, Error>)
    ensures
        ({
            let t = model::reg_names(texts@);
            let bad = building::control_err(model::Control::PlaceObject(p@), t);
            match r {
                Ok(x) => bad is None && x@ == building::place(p@, t),
                Err(e) => bad == Some(e@),
            }
        }),
{
    let clip_actions = match &p.clip_actions {
        Some(blocks) => Some(build_handlers(blocks, texts)?),
        None => None,
    };
    let id: u16 = match p.character_id {
        Some(id) => id as u16,
        None => 0,
    };
    let action = if p.is_move && p.character_id.is_none() {
        PlaceAction::Modify
    } else if p.is_move {
        PlaceAction::Replace(id)
    } else {
        PlaceAction::Place(id)
    };
    let version: u8 = if p.is_place_object_3() {
        3
    } else {
        2
    };
    let clip_depth = match p.clip_depth {
        Some(d) => Some(d as u16),
        None => None,
    };
    // The instance name is what ActionScript addresses the clip by, so it has to
    // survive the conversion.
    let name = match &p.name {
        Some(n) => Some(n.clone()),
        None => None,
    };
    Ok(
        Place {
            version,
            action,
            depth: p.depth as u16,
            matrix: p.matrix,
            cxform: p.cxform,
            ratio: p.ratio,
            name,
            clip_actions,
            clip_depth,
            filters: copies::filters(&p.filters),
            blend_mode: blend(p.blend_mode),
        },
    )
}

fn push_control(out: &mut Vec<TimelineTag>, c: &Control, texts: &[(F32Bits, String)]) -> (r: Result<
    (),
    Error,
>)
    ensures
        ({
            let t = model::reg_names(texts@);
            match r {
                Ok(_) => building::control_err(c@, t) is None && model::views(final(out)@)
                    == model::views(old(out)@) + building::control_tags(c@, t),
                Err(e) => building::control_err(c@, t) == Some(e@),
            }
        }),
{
    let ghost before = model::views(out@);
    let ghost t = model::reg_names(texts@);
    match c {
        Control::Action(s) => out.push(TimelineTag::DoAction(apt_to_swf_actions(s, texts)?)),
        Control::InitAction { sprite_id, actions } => {
            let code = apt_to_swf_actions(actions, texts)?;
            out.push(TimelineTag::DoInitAction { id: *sprite_id as u16, code });
        },
        Control::PlaceObject(p) => out.push(TimelineTag::Place(build_place(p, texts)?)),
        Control::RemoveObject { depth } => out.push(
            TimelineTag::RemoveObject { depth: *depth as u16 },
        ),
        Control::FrameLabel(label) => out.push(TimelineTag::FrameLabel(label.clone())),
        // Background color is hoisted to a single tag before the timeline; sounds
        // aren't converted.
        _ => {},
    }
    assert(model::views(out@) =~= before + building::control_tags(c@, t));
    Ok(())
}

proof fn lemma_controls_err(v: Seq<model::Control>, t: Texts, i: nat, n: nat)
    requires
        i <= n,
        building::controls_err(v, t, i) is Some,
    ensures
        building::controls_err(v, t, n) == building::controls_err(v, t, i),
    decreases n - i,
{
    if i < n {
        lemma_controls_err(v, t, i, (n - 1) as nat);
    }
}

fn push_controls(
    out: &mut Vec<TimelineTag>,
    controls: &Vec<Control>,
    texts: &[(F32Bits, String)],
) -> (r: Result<(), Error>)
    ensures
        ({
            let t = model::reg_names(texts@);
            let v = model::views(controls@);
            match r {
                Ok(_) => building::controls_err(v, t, v.len()) is None && model::views(final(out)@)
                    == model::views(old(out)@) + building::controls_tags(v, t, v.len()),
                Err(e) => building::controls_err(v, t, v.len()) == Some(e@),
            }
        }),
{
    let ghost before = model::views(out@);
    let ghost t = model::reg_names(texts@);
    let ghost v = model::views(controls@);
    let mut i: usize = 0;
    assert(model::views(out@) =~= before + building::controls_tags(v, t, 0));
    while i < controls.len()
        invariant
            i <= controls@.len(),
            t == model::reg_names(texts@),
            v == model::views(controls@),
            building::controls_err(v, t, i as nat) is None,
            model::views(out@) == before + building::controls_tags(v, t, i as nat),
        decreases controls@.len() - i,
    {
        assert(v[i as int] == controls@[i as int]@);
        match push_control(out, &controls[i], texts) {
            Ok(_) => {},
            Err(e) => {
                proof {
                    lemma_controls_err(v, t, (i + 1) as nat, v.len());
                }
                return Err(e);
            },
        }
        assert(model::views(out@) =~= before + building::controls_tags(v, t, (i + 1) as nat));
        i = i + 1;
    }
    Ok(())
}

proof fn lemma_frames_err(v: Seq<model::Frame>, t: Texts, i: nat, n: nat)
    requires
        i <= n,
        building::frames_err(v, t, i) is Some,
    ensures
        building::frames_err(v, t, n) == building::frames_err(v, t, i),
    decreases n - i,
{
    if i < n {
        lemma_frames_err(v, t, i, (n - 1) as nat);
    }
}

/// Build SWF tags for `frames`.
fn build_frame_tags(frames: &Vec<Frame>, texts: &[(F32Bits, String)]) -> (r: Result<
    Vec<TimelineTag>,
    Error,
>)
    ensures
        ({
            let t = model::reg_names(texts@);
            let v = model::views(frames@);
            match r {
                Ok(out) => building::frames_err(v, t, v.len()) is None && model::views(out@)
                    == building::frames_tags(v, t, v.len()),
                Err(e) => building::frames_err(v, t, v.len()) == Some(e@),
            }
        }),
{
    let ghost t = model::reg_names(texts@);
    let ghost v = model::views(frames@);
    let mut out: Vec<TimelineTag> = Vec::new();
    let mut i: usize = 0;
    assert(model::views(out@) =~= building::frames_tags(v, t, 0));
    while i < frames.len()
        invariant
            i <= frames@.len(),
            t == model::reg_names(texts@),
            v == model::views(frames@),
            building::frames_err(v, t, i as nat) is None,
            model::views(out@) == building::frames_tags(v, t, i as nat),
        decreases frames@.len() - i,
    {
        assert(v[i as int] == frames@[i as int]@);
        match push_controls(&mut out, &frames[i].controls, texts) {
            Ok(_) => {},
            Err(e) => {
                proof {
                    lemma_frames_err(v, t, (i + 1) as nat, v.len());
                }
                return Err(e);
            },
        }
        let ghost seen = out@;
        out.push(TimelineTag::ShowFrame);
        assert(model::views(out@) =~= model::views(seen).push(scene::TimelineTag::ShowFrame));
        i = i + 1;
    }
    Ok(out)
}

proof fn lemma_sprites_err(m: model::Movie, t: Texts, i: nat, n: nat)
    requires
        i <= n,
        building::sprites_err(m, t, i) is Some,
    ensures
        building::sprites_err(m, t, n) == building::sprites_err(m, t, i),
    decreases n - i,
{
    if i < n {
        lemma_sprites_err(m, t, i, (n - 1) as nat);
    }
}

fn build_sprites(movie: &Movie, texts: &[(F32Bits, String)]) -> (r: Result<Vec<Definition>, Error>)
    ensures
        ({
            let t = model::reg_names(texts@);
            let n = movie@.characters.len();
            match r {
                Ok(out) => building::sprites_err(movie@, t, n) is None && model::views(out@)
                    == building::sprites(movie@, t, n),
                Err(e) => building::sprites_err(movie@, t, n) == Some(e@),
            }
        }),
{
    let ghost t = model::reg_names(texts@);
    let ghost m = movie@;
    let mut out: Vec<Definition> = Vec::new();
    let mut i: usize = 0;
    assert(model::views(out@) =~= building::sprites(m, t, 0));
    while i < movie.characters.len()
        invariant
            i <= movie.characters@.len(),
            t == model::reg_names(texts@),
            m == movie@,
            building::sprites_err(m, t, i as nat) is None,
            model::views(out@) == building::sprites(m, t, i as nat),
        decreases movie.characters@.len() - i,
    {
        assert(m.characters[i as int] == movie.characters@[i as int]@);
        let ghost seen = out@;
        match &movie.characters[i] {
            CharacterSlot::Character(Character::Sprite(sprite)) => {
                match build_frame_tags(&sprite.frames, texts) {
                    Ok(tags) => {
                        let d = Definition::Sprite {
                            id: i as u16,
                            num_frames: sprite.frames.len() as u16,
                            tags,
                        };
                        out.push(d);
                        assert(model::views(out@) =~= model::views(seen).push(d@));
                    },
                    Err(e) => {
                        proof {
                            lemma_sprites_err(m, t, (i + 1) as nat, m.characters.len());
                        }
                        return Err(e);
                    },
                }
            },
            _ => {},
        }
        i = i + 1;
    }
    Ok(out)
}

/// A button character.
struct Found<'a> {
    id: u16,
    button: &'a Button,
}

impl<'a> View for Found<'a> {
    type V = (u16, model::Button);

    closed spec fn view(&self) -> (u16, model::Button) {
        (self.id, self.button@)
    }
}

fn find_buttons(movie: &Movie) -> (out: Vec<Found<'_>>)
    ensures
        model::views(out@) == building::buttons(movie@, movie@.characters.len()),
{
    let ghost m = movie@;
    let mut out: Vec<Found<'_>> = Vec::new();
    let mut i: usize = 0;
    assert(model::views(out@) =~= building::buttons(m, 0));
    while i < movie.characters.len()
        invariant
            i <= movie.characters@.len(),
            m == movie@,
            model::views(out@) == building::buttons(m, i as nat),
        decreases movie.characters@.len() - i,
    {
        assert(m.characters[i as int] == movie.characters@[i as int]@);
        let ghost seen = out@;
        match &movie.characters[i] {
            CharacterSlot::Character(Character::Button(button)) => {
                let f = Found { id: i as u16, button };
                out.push(f);
                assert(model::views(out@) =~= model::views(seen).push(f@));
            },
            _ => {},
        }
        i = i + 1;
    }
    out
}

/// The records of a button that show something.
fn build_records(v: &Vec<ButtonRecord>) -> (out: Vec<ButtonRecordTag>)
    ensures
        model::views(out@) == building::shown_records(model::views(v@), v@.len()),
{
    let ghost w = model::views(v@);
    let mut out: Vec<ButtonRecordTag> = Vec::new();
    let mut i: usize = 0;
    assert(model::views(out@) =~= building::shown_records(w, 0));
    while i < v.len()
        invariant
            i <= v@.len(),
            w == model::views(v@),
            model::views(out@) == building::shown_records(w, i as nat),
        decreases v@.len() - i,
    {
        assert(w[i as int] == v@[i as int]@);
        let r = &v[i];
        let ghost seen = out@;
        // Strip the hit-test state: the record shape is a dummy there.
        let states: u8 = (r.states as u8) & 7u8;
        if states != 0 {
            let tag = ButtonRecordTag {
                states,
                id: r.character_id as u16,
                depth: r.layer as u16,
                matrix: r.matrix,
                cxform: r.cxform,
            };
            out.push(tag);
            assert(model::views(out@) =~= model::views(seen).push(tag@));
        }
        i = i + 1;
    }
    out
}

/// The engine hit-tests the mesh through the hit-test record's matrix, and menus
/// depend on it: a record can scale a small mesh into a large "keep open" region
/// layered over a close-area button.
fn hit_matrix(v: &Vec<ButtonRecord>) -> (m: Matrix)
    ensures
        m == building::hit_matrix(model::views(v@), 0),
{
    let ghost w = model::views(v@);
    let mut i: usize = 0;
    while i < v.len()
        invariant
            i <= v@.len(),
            w == model::views(v@),
            building::hit_matrix(w, i as int) == building::hit_matrix(w, 0),
        decreases v@.len() - i,
    {
        assert(w[i as int] == v@[i as int]@);
        if v[i].states & 8 != 0 {
            return v[i].matrix;
        }
        i = i + 1;
    }
    Matrix::default()
}

proof fn lemma_conditions_err(v: Seq<model::ButtonAction>, t: Texts, i: nat, n: nat)
    requires
        i <= n,
        building::conditions_err(v, t, i) is Some,
    ensures
        building::conditions_err(v, t, n) == building::conditions_err(v, t, i),
    decreases n - i,
{
    if i < n {
        lemma_conditions_err(v, t, i, (n - 1) as nat);
    }
}

fn build_button_actions(v: &Vec<ButtonAction>, texts: &[(F32Bits, String)]) -> (r: Result<
    Vec<ButtonActionTag>,
    Error,
>)
    ensures
        ({
            let t = model::reg_names(texts@);
            let w = model::views(v@);
            match r {
                Ok(out) => building::conditions_err(w, t, w.len()) is None && model::views(out@)
                    == building::button_actions(w, t),
                Err(e) => building::conditions_err(w, t, w.len()) == Some(e@),
            }
        }),
{
    let ghost t = model::reg_names(texts@);
    let ghost w = model::views(v@);
    let ghost all = building::button_actions(w, t);
    let mut out: Vec<ButtonActionTag> = Vec::new();
    let mut i: usize = 0;
    while i < v.len()
        invariant
            i <= v@.len(),
            t == model::reg_names(texts@),
            w == model::views(v@),
            all == building::button_actions(w, t),
            building::conditions_err(w, t, i as nat) is None,
            out@.len() == i,
            forall|k: int| 0 <= k < i ==> (#[trigger] out@[k])@ == all[k],
        decreases v@.len() - i,
    {
        assert(w[i as int] == v@[i as int]@);
        match apt_to_swf_actions(&v[i].actions, texts) {
            Ok(code) => out.push(
                ButtonActionTag { conditions: v[i].conditions as u16, code },
            ),
            Err(e) => {
                proof {
                    lemma_conditions_err(w, t, (i + 1) as nat, w.len());
                }
                return Err(e);
            },
        }
        i = i + 1;
    }
    assert(model::views(out@) =~= all);
    Ok(out)
}

/// Button -> DefineButton2. APT's state mask and condition mask share SWF's bit
/// layout, so they carry over directly - except the hit-test state, which is
/// redirected to the synthetic mesh shape (`hit_id`).
fn build_button(id: u16, b: &Button, hit_id: u16, texts: &[(F32Bits, String)]) -> (r: Result<
    ButtonTag,
    Error,
>)
    ensures
        ({
            let t = model::reg_names(texts@);
            let bad = building::conditions_err(b@.actions, t, b@.actions.len());
            match r {
                Ok(x) => bad is None && x@ == building::button_tag(id, b@, hit_id, t),
                Err(e) => bad == Some(e@),
            }
        }),
{
    let actions = build_button_actions(&b.actions, texts)?;
    let mut records = build_records(&b.records);
    let ghost seen = records@;
    let hit = ButtonRecordTag {
        states: 8,
        id: hit_id,
        depth: 1,
        matrix: hit_matrix(&b.records),
        cxform: FloatCxForm::default(),
    };
    records.push(hit);
    proof {
        assert(hit@ =~= building::hit_record(b@, hit_id));
        assert(model::views(records@) =~= model::views(seen).push(hit@));
    }
    Ok(ButtonTag { id, is_menu: b.is_menu, records, actions })
}

fn vertex(b: &Button, i: i16) -> (p: (F32Bits, F32Bits))
    ensures
        p == building::vertex(b@, i),
{
    if 0 <= i && (i as usize) < b.hit_test_vertices.len() {
        b.hit_test_vertices[i as usize]
    } else {
        (0, 0)
    }
}

/// The button's hit area as a shape: its triangle mesh when present, otherwise
/// its bounding rect. (It is only ever shown as the invisible hit-test state, so
/// the fill color is irrelevant.)
fn build_hit_shape(id: u16, b: &Button) -> (s: ShapeTag)
    ensures
        s@ == building::hit_shape(id, b@),
{
    let mut outlines: Vec<Outline> = Vec::new();
    let ghost all = building::hit_outlines(b@);
    if b.hit_test_triangles.len() == 0 {
        let r = &b.hit_test_bounds;
        let mut points: Vec<(F32Bits, F32Bits)> = Vec::new();
        points.push((r.left, r.top));
        points.push((r.right, r.top));
        points.push((r.right, r.bottom));
        points.push((r.left, r.bottom));
        let o = Outline { fill: 1, points };
        outlines.push(o);
        assert(o@ =~= all[0]);
    } else {
        let mut k: usize = 0;
        while k < b.hit_test_triangles.len()
            invariant
                k <= b.hit_test_triangles@.len(),
                outlines@.len() == k,
                forall|j: int|
                    0 <= j < k ==> (#[trigger] outlines@[j])@ == building::hit_triangle(b@, j),
            decreases b.hit_test_triangles@.len() - k,
        {
            let t = &b.hit_test_triangles[k];
            assert(b@.hit_test_triangles[k as int] == t@);
            let mut points: Vec<(F32Bits, F32Bits)> = Vec::new();
            points.push(vertex(b, t[0]));
            points.push(vertex(b, t[1]));
            points.push(vertex(b, t[2]));
            let o = Outline { fill: 1, points };
            assert(o@ =~= building::hit_triangle(b@, k as int));
            outlines.push(o);
            k = k + 1;
        }
    }
    assert(model::views(outlines@) =~= all);
    let mut fills: Vec<Fill> = Vec::new();
    fills.push(Fill::Color(Rgba { r: 0, g: 0, b: 0, a: 0 }));
    let s = ShapeTag { id, bounds: b.hit_test_bounds, fills, outlines };
    assert(s@.fills =~= building::hit_shape(id, b@).fills);
    s
}

proof fn lemma_buttons_err(v: Seq<(u16, model::Button)>, t: Texts, i: nat, n: nat)
    requires
        i <= n,
        building::buttons_err(v, t, i) is Some,
    ensures
        building::buttons_err(v, t, n) == building::buttons_err(v, t, i),
    decreases n - i,
{
    if i < n {
        lemma_buttons_err(v, t, i, (n - 1) as nat);
    }
}

/// The sum of two character ids, in 16 bits.
fn sum_ids(a: u16, b: u16) -> (s: u16)
    ensures
        s == (a + b) as u16,
{
    let s: u16 = ((a as u32 + b as u32) % 0x1_0000) as u16;
    proof {
        assert((a + b) as u16 == (a + b) % 0x1_0000) by (bit_vector);
    }
    s
}

/// The APT engine hit-tests buttons against the Button character's own triangle
/// mesh, not the (dummy, usually degenerate) shape in its hit-test record - so
/// that mesh becomes a synthetic shape per button, and the SWF hit-test state
/// points at it.
fn build_buttons(
    movie: &Movie,
    found: &Vec<Found>,
    texts: &[(F32Bits, String)],
) -> (r: Result<Vec<Definition>, Error>)
    ensures
        ({
            let t = model::reg_names(texts@);
            let v = model::views(found@);
            match r {
                Ok(out) => building::buttons_err(v, t, v.len()) is None && model::views(out@)
                    == building::button_tags(movie@, v, t, v.len()),
                Err(e) => building::buttons_err(v, t, v.len()) == Some(e@),
            }
        }),
{
    let ghost t = model::reg_names(texts@);
    let ghost v = model::views(found@);
    let base: u16 = movie.characters.len() as u16;
    let mut out: Vec<Definition> = Vec::new();
    let mut i: usize = 0;
    assert(model::views(out@) =~= building::button_tags(movie@, v, t, 0));
    while i < found.len()
        invariant
            i <= found@.len(),
            t == model::reg_names(texts@),
            v == model::views(found@),
            base == movie@.characters.len() as u16,
            building::buttons_err(v, t, i as nat) is None,
            model::views(out@) == building::button_tags(movie@, v, t, i as nat),
        decreases found@.len() - i,
    {
        assert(v[i as int] == found@[i as int]@);
        let f = &found[i];
        let hit_id: u16 = sum_ids(base, i as u16);
        let ghost seen = out@;
        match build_button(f.id, f.button, hit_id, texts) {
            Ok(b) => {
                let s = Definition::Shape(build_hit_shape(hit_id, f.button));
                let d = Definition::Button(b);
                out.push(s);
                out.push(d);
                assert(model::views(out@) =~= model::views(seen).push(s@).push(d@));
            },
            Err(e) => {
                proof {
                    lemma_buttons_err(v, t, (i + 1) as nat, v.len());
                }
                return Err(e);
            },
        }
        i = i + 1;
    }
    Ok(out)
}

fn build_texts(movie: &Movie) -> (out: Vec<Definition>)
    ensures
        model::views(out@) == building::edit_texts(movie@, movie@.characters.len()),
{
    let ghost m = movie@;
    let mut out: Vec<Definition> = Vec::new();
    let mut i: usize = 0;
    assert(model::views(out@) =~= building::edit_texts(m, 0));
    while i < movie.characters.len()
        invariant
            i <= movie.characters@.len(),
            m == movie@,
            model::views(out@) == building::edit_texts(m, i as nat),
        decreases movie.characters@.len() - i,
    {
        assert(m.characters[i as int] == movie.characters@[i as int]@);
        let ghost seen = out@;
        match &movie.characters[i] {
            CharacterSlot::Character(Character::Text(t)) => {
                let d = Definition::EditText(build_edit_text(movie, i as u16, t));
                out.push(d);
                assert(model::views(out@) =~= model::views(seen).push(d@));
            },
            _ => {},
        }
        i = i + 1;
    }
    out
}

fn build_fonts(movie: &Movie) -> (out: Vec<Definition>)
    ensures
        model::views(out@) == building::device_fonts(movie@, movie@.characters.len()),
{
    let ghost m = movie@;
    let mut out: Vec<Definition> = Vec::new();
    let mut i: usize = 0;
    assert(model::views(out@) =~= building::device_fonts(m, 0));
    while i < movie.characters.len()
        invariant
            i <= movie.characters@.len(),
            m == movie@,
            model::views(out@) == building::device_fonts(m, i as nat),
        decreases movie.characters@.len() - i,
    {
        assert(m.characters[i as int] == movie.characters@[i as int]@);
        let ghost seen = out@;
        match &movie.characters[i] {
            CharacterSlot::Character(Character::Font(f)) => {
                let d = Definition::DeviceFont { id: i as u16, name: f.name.clone() };
                out.push(d);
                assert(model::views(out@) =~= model::views(seen).push(d@));
            },
            _ => {},
        }
        i = i + 1;
    }
    out
}

fn controls_background(v: &Vec<Control>) -> (r: Option<u32>)
    ensures
        r == building::controls_background(model::views(v@), 0),
{
    let ghost w = model::views(v@);
    let mut j: usize = 0;
    while j < v.len()
        invariant
            j <= v@.len(),
            w == model::views(v@),
            building::controls_background(w, j as int) == building::controls_background(w, 0),
        decreases v@.len() - j,
    {
        assert(w[j as int] == v@[j as int]@);
        match &v[j] {
            Control::BackgroundColor(c) => {
                return Some(*c);
            },
            _ => {},
        }
        j = j + 1;
    }
    None
}

fn find_background(frames: &Vec<Frame>) -> (r: Option<u32>)
    ensures
        r == building::background(model::views(frames@), 0),
{
    let ghost w = model::views(frames@);
    let mut i: usize = 0;
    while i < frames.len()
        invariant
            i <= frames@.len(),
            w == model::views(frames@),
            building::background(w, i as int) == building::background(w, 0),
        decreases frames@.len() - i,
    {
        assert(w[i as int] == frames@[i as int]@);
        match controls_background(&frames[i].controls) {
            Some(c) => {
                return Some(c);
            },
            None => {},
        }
        i = i + 1;
    }
    None
}

fn push_background(out: &mut Vec<Definition>, frames: &Vec<Frame>, instead: Option<u32>)
    ensures
        model::views(final(out)@) == model::views(old(out)@) + building::background_tags(
            model::views(frames@),
            instead,
        ),
{
    let ghost before = model::views(out@);
    match instead {
        Some(rgb) => {
            let c = unpack_color(rgb);
            out.push(Definition::BackgroundColor(Rgba { r: c.r, g: c.g, b: c.b, a: 255 }));
        },
        None => match find_background(frames) {
            Some(c) => out.push(Definition::BackgroundColor(unpack_color(c))),
            None => {},
        },
    }
    assert(model::views(out@) =~= before + building::background_tags(
        model::views(frames@),
        instead,
    ));
}

fn multiply(c: u8, a: u8) -> (m: u8)
    ensures
        m == building::multiplied(c, a),
{
    proof {
        assert(c * a <= 255 * 255) by (nonlinear_arith)
            requires
                c <= 255,
                a <= 255,
        ;
    }
    ((c as u32 * a as u32 + 127) / 255) as u8
}

/// RGBA pixels as ARGB with premultiplied alpha.
pub fn premultiply(rgba: &Vec<u8>) -> (argb: Vec<u8>)
    ensures
        argb@ == building::premultiplied(rgba@),
{
    let total: usize = rgba.len();
    let count: usize = total / 4;
    let ghost all = building::premultiplied(rgba@);
    let mut argb: Vec<u8> = Vec::new();
    let mut k: usize = 0;
    while k < count
        invariant
            k <= count,
            count == total / 4,
            total == rgba@.len(),
            all == building::premultiplied(rgba@),
            argb@ == all.take(4 * k),
        decreases count - k,
    {
        let p: usize = 4 * k;
        let a: u8 = rgba[p + 3];
        argb.push(a);
        argb.push(multiply(rgba[p], a));
        argb.push(multiply(rgba[p + 1], a));
        argb.push(multiply(rgba[p + 2], a));
        proof {
            assert(all[p as int] == a);
            assert(all[p + 1] == building::multiplied(rgba@[p as int], a));
            assert(all[p + 2] == building::multiplied(rgba@[p + 1], a));
            assert(all[p + 3] == building::multiplied(rgba@[p + 2], a));
            assert(argb@ =~= all.take(4 * (k + 1)));
        }
        k = k + 1;
    }
    assert(all.take(4 * k) =~= all);
    argb
}

/// Encode a texture as DefineBitsLossless2 pixel data: zlib-compressed ARGB with
/// premultiplied alpha, as the SWF format requires.
pub fn encode_bitmap_data(texture: &Texture) -> (r: Result<Vec<u8>, Error>)
    ensures
        match r {
            Ok(b) => {
                &&& zlib::deflated(building::premultiplied(texture.rgba@)) == Some(b@)
                &&& zlib::inflated(b@) == Some(building::premultiplied(texture.rgba@))
            },
            Err(e) => {
                &&& zlib::deflated(building::premultiplied(texture.rgba@)) is None
                &&& e@ == Trouble::Compression
            },
        },
{
    let argb = premultiply(&texture.rgba);
    match zlib::deflate(argb.as_slice()) {
        Some(b) => Ok(b),
        None => Err(Error::Compression),
    }
}

fn push_bitmaps(out: &mut Vec<Definition>, table: &BitmapTable) -> (r: Result<(), Error>)
    ensures
        match r {
            Ok(_) => {
                &&& building::bitmaps_err(table@) is None
                &&& model::views(final(out)@) == model::views(old(out)@) + building::bitmap_tags(
                    table@,
                )
            },
            Err(e) => building::bitmaps_err(table@) == Some(e@),
        },
{
    let ghost before = model::views(out@);
    let ghost all = building::bitmap_tags(table@);
    let mut i: usize = 0;
    assert(before + all.take(0) =~= before);
    while i < table.loaded.len()
        invariant
            i <= table.loaded@.len(),
            all == building::bitmap_tags(table@),
            model::views(out@) == before + all.take(i as int),
            forall|k: int|
                0 <= k < i ==> zlib::deflated(
                    building::premultiplied((#[trigger] table@.loaded[k]).texture.rgba),
                ) is Some,
        decreases table.loaded@.len() - i,
    {
        let l = &table.loaded[i];
        assert(table@.loaded[i as int] == l@);
        let data = encode_bitmap_data(l.texture)?;
        let d = Definition::Bitmap {
            id: l.id,
            width: l.texture.width as u16,
            height: l.texture.height as u16,
            data,
        };
        let ghost seen = out@;
        out.push(d);
        proof {
            assert(d@ == all[i as int]);
            assert(model::views(out@) =~= model::views(seen).push(d@));
            assert((before + all.take(i as int)).push(d@) =~= before + all.take(i + 1));
        }
        i = i + 1;
    }
    assert(all.take(i as int) =~= all);
    Ok(())
}

/// Bitmap characters placed directly on a timeline: id, texture, width, height.
type WholeBitmap = (u16, u16, u32, u32);

/// Shapes, bitmaps placed on a timeline, and the textures they use.
struct Drawn<'a> {
    table: BitmapTable<'a>,
    shapes: Vec<ShapeTag>,
    bitmaps: Vec<WholeBitmap>,
}

impl<'a> View for Drawn<'a> {
    type V = building::Drawn;

    closed spec fn view(&self) -> building::Drawn {
        building::Drawn {
            table: self.table@,
            shapes: model::views(self.shapes@),
            bitmaps: self.bitmaps@,
        }
    }
}

fn draw_one<'a, A: Assets>(d: &mut Drawn<'a>, movie: &Movie, assets: &'a A, i: usize)
    requires
        i < movie.characters@.len(),
    ensures
        final(d)@ == building::draw_one(old(d)@, movie@, assets, i as int),
{
    assert(movie@.characters[i as int] == movie.characters@[i as int]@);
    let ghost before = d@;
    match &movie.characters[i] {
        CharacterSlot::Character(Character::Shape(s)) => {
            let nothing: Vec<RenderUnit> = Vec::new();
            assert(batches(nothing@) =~= Seq::empty());
            let units = match assets.geometry(i as u32) {
                Some(g) => &g.units,
                None => &nothing,
            };
            d.table.collect(i as u32, units, assets);
            let tag = build_shape(i as u16, units, s.bounds, &d.table);
            let ghost seen = d.shapes@;
            d.shapes.push(tag);
            proof {
                assert(model::views(d.shapes@) =~= model::views(seen).push(tag@));
                assert(d@ =~= building::draw_one(before, movie@, assets, i as int));
            }
        },
        CharacterSlot::Character(Character::Bitmap) => {
            if is_placed(movie, i as u32) {
                // A Bitmap character's texture is keyed by its own index; it renders
                // as a shape covering the image.
                match assets.texture(i as u32, i as u32) {
                    Some((key, texture)) => {
                        let id: u16 = d.table.enter(i as u32, i as u32, key, texture);
                        d.bitmaps.push((i as u16, id, texture.width, texture.height));
                    },
                    None => {},
                }
            }
        },
        _ => {},
    }
}

fn draw<'a, A: Assets>(movie: &Movie, assets: &'a A, next_id: u16) -> (d: Drawn<'a>)
    requires
        next_id == ((movie@.characters.len() as u16) + (building::buttons(
            movie@,
            movie@.characters.len(),
        ).len() as u16)) as u16,
    ensures
        d@ == building::drawn(movie@, assets, movie@.characters.len()),
{
    let mut d = Drawn {
        table: BitmapTable::new(next_id),
        shapes: Vec::new(),
        bitmaps: Vec::new(),
    };
    proof {
        assert(d@.shapes =~= Seq::<scene::ShapeTag>::empty());
        assert(d@.bitmaps =~= Seq::<WholeBitmap>::empty());
    }
    let mut i: usize = 0;
    while i < movie.characters.len()
        invariant
            i <= movie.characters@.len(),
            d@ == building::drawn(movie@, assets, i as nat),
        decreases movie.characters@.len() - i,
    {
        draw_one(&mut d, movie, assets, i);
        i = i + 1;
    }
    d
}

fn push_shapes(out: &mut Vec<Definition>, shapes: Vec<ShapeTag>)
    ensures
        model::views(final(out)@) == model::views(old(out)@) + building::shape_tags(
            model::views(shapes@),
        ),
{
    let ghost before = model::views(out@);
    let ghost all = building::shape_tags(model::views(shapes@));
    let ghost v = shapes@;
    assert(before + all.take(0) =~= before);
    for s in it: shapes
        invariant
            it.seq() == v,
            all == building::shape_tags(model::views(v)),
            model::views(out@) == before + all.take(it.index()),
    {
        let d = Definition::Shape(s);
        let ghost seen = out@;
        out.push(d);
        proof {
            let i = it.index();
            assert(d@ == all[i]);
            assert(model::views(out@) =~= model::views(seen).push(d@));
            assert((before + all.take(i)).push(d@) =~= before + all.take(i + 1));
        }
    }
    assert(all.take(v.len() as int) =~= all);
}

fn push_whole_bitmaps(out: &mut Vec<Definition>, v: &Vec<WholeBitmap>)
    ensures
        model::views(final(out)@) == model::views(old(out)@) + building::whole_bitmaps(v@),
{
    let ghost before = model::views(out@);
    let ghost all = building::whole_bitmaps(v@);
    let mut i: usize = 0;
    assert(before + all.take(0) =~= before);
    while i < v.len()
        invariant
            i <= v@.len(),
            all == building::whole_bitmaps(v@),
            model::views(out@) == before + all.take(i as int),
        decreases v@.len() - i,
    {
        let (id, texture, width, height) = v[i];
        let d = Definition::WholeBitmap { id, texture, width, height };
        let ghost seen = out@;
        out.push(d);
        proof {
            assert(d@ == all[i as int]);
            assert(model::views(out@) =~= model::views(seen).push(d@));
            assert((before + all.take(i as int)).push(d@) =~= before + all.take(i + 1));
        }
        i = i + 1;
    }
    assert(all.take(i as int) =~= all);
}

fn push_all(out: &mut Vec<Definition>, v: Vec<Definition>)
    ensures
        model::views(final(out)@) == model::views(old(out)@) + model::views(v@),
{
    let ghost before = model::views(out@);
    let ghost w = v@;
    let ghost all = model::views(w);
    assert(before + all.take(0) =~= before);
    for d in it: v
        invariant
            it.seq() == w,
            all == model::views(w),
            model::views(out@) == before + all.take(it.index()),
    {
        let ghost seen = out@;
        out.push(d);
        proof {
            let i = it.index();
            assert(d@ == all[i]);
            assert(model::views(out@) =~= model::views(seen).push(d@));
            assert((before + all.take(i)).push(d@) =~= before + all.take(i + 1));
        }
    }
    assert(all.take(w.len() as int) =~= all);
}

/// Frames per second in 1/256, from the milliseconds of a frame.
pub fn frame_rate(ms_per_frame: u32) -> (r: i16)
    ensures
        r == building::frame_rate(ms_per_frame),
{
    if ms_per_frame == 0 {
        return 7680;
    }
    let rate: u32 = 256_000 / ms_per_frame;
    if rate > 32767 {
        32767
    } else {
        rate as i16
    }
}

/// Convert an APT movie to SWF, using `assets` for shape geometry and textures.
/// `texts` gives the words for the numbers in its dictionaries.
///
/// Imports must already be resolved (see [`super::imports`]); any character slot
/// still empty here simply has nothing to draw.
pub fn apt_to_swf<A: Assets>(
    file: &AptFile,
    assets: &A,
    texts: &[(F32Bits, String)],
) -> (r: Result<SwfMovie, Error>)
    ensures
        ({
            let t = model::reg_names(texts@);
            let bad = building::swf_err(file@.movie, assets, t);
            match r {
                Ok(s) => bad is None && s@ == building::swf(file@, assets, None, t),
                Err(e) => bad == Some(e@),
            }
        }),
{
    apt_to_swf_with(file, assets, None, texts)
}

/// As [`apt_to_swf`], optionally replacing the movie's background color.
pub fn apt_to_swf_with<A: Assets>(
    file: &AptFile,
    assets: &A,
    override_background: Option<u32>,
    texts: &[(F32Bits, String)],
) -> (r: Result<SwfMovie, Error>)
    ensures
        ({
            let t = model::reg_names(texts@);
            let bad = building::swf_err(file@.movie, assets, t);
            match r {
                Ok(s) => bad is None && s@ == building::swf(file@, assets, override_background, t),
                Err(e) => bad == Some(e@),
            }
        }),
{
    let movie = &file.movie;
    let ghost t = model::reg_names(texts@);
    let ghost m = movie@;
    let found = find_buttons(movie);
    assert(model::views(found@).len() == found@.len());
    // Shape/sprite SWF ids mirror the APT character index. Extra synthetic
    // characters (button hit-test shapes, and bitmaps after them) get ids past the
    // end of the character table.
    let next_id: u16 = sum_ids(movie.characters.len() as u16, found.len() as u16);
    let drawn = draw(movie, assets, next_id);
    let buttons = build_buttons(movie, &found, texts)?;
    let sprites = build_sprites(movie, texts)?;
    let timeline = build_frame_tags(&movie.frames, texts)?;

    // APT pulls characters out of a sibling movie by export name; SWF says the
    // same thing with ImportAssets against that movie's `.swf`, which the player
    // resolves relative to this movie.
    let mut definitions: Vec<Definition> = Vec::new();
    assert(model::views(definitions@) =~= Seq::<scene::Definition>::empty());
    push_imports(&mut definitions, &movie.imports);
    push_bitmaps(&mut definitions, &drawn.table)?;
    push_shapes(&mut definitions, drawn.shapes);
    push_whole_bitmaps(&mut definitions, &drawn.bitmaps);
    push_all(&mut definitions, build_fonts(movie));
    push_all(&mut definitions, build_texts(movie));
    push_all(&mut definitions, sprites);
    // Buttons after sprites and shapes: their records reference those characters.
    push_all(&mut definitions, buttons);
    // Exports make our characters importable by the movies that reference us.
    push_exports(&mut definitions, &movie.exports);
    push_background(&mut definitions, &movie.frames, override_background);
    assert(model::views(definitions@) =~= building::definitions(
        m,
        assets,
        override_background,
        t,
    ));
    let version: u8 = if file.header.swf_version < 6 {
        6
    } else {
        file.header.swf_version
    };
    let width: u32 = if movie.width < 1 {
        1
    } else {
        movie.width
    };
    let height: u32 = if movie.height < 1 {
        1
    } else {
        movie.height
    };
    Ok(
        SwfMovie {
            version,
            width,
            height,
            frame_rate: frame_rate(movie.ms_per_frame),
            num_frames: movie.frames.len() as u16,
            definitions,
            timeline,
        },
    )
}

} // verus!
