//! Where a movie's shape geometry and textures come from.
//!
//! After import resolution a movie's characters can originate from several
//! movies at once, and geometry and textures live next to the movie that
//! *defined* a character - not the one being converted. So lookups are keyed by
//! the shape's index in the converted movie.
use super::imports::Origin;
use super::merging;
use crate::apt::model;
use crate::apt::types::{Character, CharacterSlot, Movie};
use crate::apt_aux::image_codec::Bitmap;
use crate::apt_aux::ru::{self, batches, Batch, Look, RuFormat, ShapeGeometry, Style};
use crate::apt_aux::texture::Texture;
use crate::text;
use vstd::prelude::*;

verus! {

/// Supplies the assets a shape needs.
pub trait Assets {
    /// The geometry that is supplied for a shape.
    spec fn drawn(&self, shape_index: u32) -> Option<Seq<Batch>>;

    /// The texture that is supplied for a shape's bitmap, with its identity.
    spec fn pictured(&self, shape_index: u32, bitmap_character_id: u32) -> Option<
        (Seq<char>, Bitmap),
    >;

    /// Geometry for the shape at `shape_index`.
    fn geometry(&self, shape_index: u32) -> (r: Option<&ShapeGeometry>)
        ensures
            match r {
                Some(g) => self.drawn(shape_index) == Some(batches(g.units@)),
                None => self.drawn(shape_index) is None,
            },
    ;

    /// The texture a shape's geometry refers to by `bitmap_character_id` (an id
    /// in the id-space of the movie that defined the shape), with its identity:
    /// two shapes that resolve to the same image must give equal keys.
    fn texture(&self, shape_index: u32, bitmap_character_id: u32) -> (r: Option<
        (&String, &Texture),
    >)
        ensures
            match r {
                Some(t) => self.pictured(shape_index, bitmap_character_id) == Some(
                    (t.0@, t.1@),
                ),
                None => self.pictured(shape_index, bitmap_character_id) is None,
            },
    ;
}

/// Nothing at all: shapes come out empty.
pub struct NoAssets;

impl Assets for NoAssets {
    open spec fn drawn(&self, shape_index: u32) -> Option<Seq<Batch>> {
        None
    }

    open spec fn pictured(&self, shape_index: u32, bitmap_character_id: u32) -> Option<
        (Seq<char>, Bitmap),
    > {
        None
    }

    fn geometry(&self, shape_index: u32) -> (r: Option<&ShapeGeometry>) {
        None
    }

    fn texture(&self, shape_index: u32, bitmap_character_id: u32) -> (r: Option<
        (&String, &Texture),
    >) {
        None
    }
}

/// Geometry only; textured shapes fall back to their vertex color.
pub struct GeometryOnly<A>(pub A);

impl<A: Assets> Assets for GeometryOnly<A> {
    open spec fn drawn(&self, shape_index: u32) -> Option<Seq<Batch>> {
        self.0.drawn(shape_index)
    }

    open spec fn pictured(&self, shape_index: u32, bitmap_character_id: u32) -> Option<
        (Seq<char>, Bitmap),
    > {
        None
    }

    fn geometry(&self, shape_index: u32) -> (r: Option<&ShapeGeometry>) {
        self.0.geometry(shape_index)
    }

    fn texture(&self, shape_index: u32, bitmap_character_id: u32) -> (r: Option<
        (&String, &Texture),
    >) {
        None
    }
}

/// The geometry of one shape.
pub struct LoadedShape {
    pub shape_index: u32,
    pub geometry: ShapeGeometry,
}

/// The texture of one bitmap of one shape.
pub struct LoadedTexture {
    pub shape_index: u32,
    pub bitmap_character_id: u32,
    pub key: String,
    pub texture: Texture,
}

/// Assets that were loaded beforehand. Of two for the same thing the first counts.
pub struct LoadedAssets {
    pub shapes: Vec<LoadedShape>,
    pub textures: Vec<LoadedTexture>,
}

/// The geometry of a shape among those from the `i`-th on.
pub open spec fn shape_in(v: Seq<LoadedShape>, shape_index: u32, i: int) -> Option<Seq<Batch>>
    decreases v.len() - i,
{
    if i >= v.len() {
        None
    } else if v[i].shape_index == shape_index {
        Some(batches(v[i].geometry.units@))
    } else {
        shape_in(v, shape_index, i + 1)
    }
}

/// The texture of a shape's bitmap among those from the `i`-th on.
pub open spec fn texture_in(
    v: Seq<LoadedTexture>,
    shape_index: u32,
    bitmap_character_id: u32,
    i: int,
) -> Option<(Seq<char>, Bitmap)>
    decreases v.len() - i,
{
    if i >= v.len() {
        None
    } else if v[i].shape_index == shape_index && v[i].bitmap_character_id == bitmap_character_id {
        Some((v[i].key@, v[i].texture@))
    } else {
        texture_in(v, shape_index, bitmap_character_id, i + 1)
    }
}

impl Assets for LoadedAssets {
    open spec fn drawn(&self, shape_index: u32) -> Option<Seq<Batch>> {
        shape_in(self.shapes@, shape_index, 0)
    }

    open spec fn pictured(&self, shape_index: u32, bitmap_character_id: u32) -> Option<
        (Seq<char>, Bitmap),
    > {
        texture_in(self.textures@, shape_index, bitmap_character_id, 0)
    }

    fn geometry(&self, shape_index: u32) -> (r: Option<&ShapeGeometry>) {
        let mut i: usize = 0;
        while i < self.shapes.len()
            invariant
                i <= self.shapes@.len(),
                shape_in(self.shapes@, shape_index, i as int) == shape_in(
                    self.shapes@,
                    shape_index,
                    0,
                ),
            decreases self.shapes@.len() - i,
        {
            if self.shapes[i].shape_index == shape_index {
                return Some(&self.shapes[i].geometry);
            }
            i = i + 1;
        }
        None
    }

    fn texture(&self, shape_index: u32, bitmap_character_id: u32) -> (r: Option<
        (&String, &Texture),
    >) {
        let mut i: usize = 0;
        while i < self.textures.len()
            invariant
                i <= self.textures@.len(),
                texture_in(self.textures@, shape_index, bitmap_character_id, i as int)
                    == texture_in(self.textures@, shape_index, bitmap_character_id, 0),
            decreases self.textures@.len() - i,
        {
            let t = &self.textures[i];
            if t.shape_index == shape_index && t.bitmap_character_id == bitmap_character_id {
                return Some((&t.key, &t.texture));
            }
            i = i + 1;
        }
        None
    }
}

/// Where the assets of a movie on disk are: each character goes back to the movie it
/// came from.
pub struct DiskAssets {
    pub origins: Vec<Origin>,
    /// Whether images are embedded, rather than flat colors.
    pub with_textures: bool,
}

/// The identity of a texture of a movie.
pub open spec fn texture_key(base: Seq<char>, texture_id: u32) -> Seq<char> {
    base + "#"@ + text::decimal(texture_id as nat)
}

/// A texture that a conversion asks for: the bitmap of a shape, and the movie that
/// has it.
pub struct TextureRequest {
    pub shape_index: u32,
    pub bitmap_character_id: u32,
    pub base: String,
}

/// The counterpart of [`TextureRequest`] that contracts speak of.
#[verifier::ext_equal]
pub struct Wanted {
    pub shape_index: u32,
    pub bitmap_character_id: u32,
    pub base: Seq<char>,
}

impl View for TextureRequest {
    type V = Wanted;

    open spec fn view(&self) -> Wanted {
        Wanted {
            shape_index: self.shape_index,
            bitmap_character_id: self.bitmap_character_id,
            base: self.base@,
        }
    }
}

/// The textures that the first `n` units of a shape ask for.
pub open spec fn units_want(units: Seq<Batch>, shape_index: u32, base: Seq<char>, n: nat) -> Seq<
    Wanted,
>
    decreases n,
{
    if n == 0 {
        Seq::empty()
    } else {
        let before = units_want(units, shape_index, base, (n - 1) as nat);
        match units[n - 1].style {
            Look::Textured { bitmap_character_id, .. } => before.push(
                Wanted { shape_index, bitmap_character_id, base },
            ),
            _ => before,
        }
    }
}

impl DiskAssets {
    /// `origins` comes from [`super::imports::resolve`]; pass `with_textures` to
    /// embed images rather than flat colors.
    pub fn new(origins: Vec<Origin>, with_textures: bool) -> (a: DiskAssets)
        ensures
            a.origins == origins,
            a.with_textures == with_textures,
    {
        DiskAssets { origins, with_textures }
    }

    /// Assets for a single movie with no imports resolved.
    pub fn for_movie(base: &str, character_count: usize, with_textures: bool) -> (a: DiskAssets)
        ensures
            a.with_textures == with_textures,
            a.origins@.len() == character_count,
            forall|i: int|
                0 <= i < character_count ==> (#[trigger] a.origins@[i])@ == (merging::Origin {
                    base: base@,
                    index: i as u32,
                }),
    {
        let mut origins: Vec<Origin> = Vec::new();
        let mut i: usize = 0;
        while i < character_count
            invariant
                i <= character_count,
                origins@.len() == i,
                forall|k: int|
                    0 <= k < i ==> (#[trigger] origins@[k])@ == (merging::Origin {
                        base: base@,
                        index: k as u32,
                    }),
            decreases character_count - i,
        {
            origins.push(Origin { base: text::copy_of(base), index: i as u32 });
            i = i + 1;
        }
        DiskAssets { origins, with_textures }
    }

    /// Where a character came from.
    pub fn origin(&self, shape_index: u32) -> (r: Option<&Origin>)
        ensures
            r == if shape_index < self.origins@.len() {
                Some(&self.origins@[shape_index as int])
            } else {
                None
            },
    {
        if (shape_index as usize) < self.origins.len() {
            Some(&self.origins[shape_index as usize])
        } else {
            None
        }
    }

    /// The file of the geometry of a shape, where its origin is known.
    pub fn geometry_path(&self, shape_index: u32) -> (r: Option<String>)
        ensures
            if shape_index < self.origins@.len() {
                r matches Some(p) && p@ == ru::geometry_path(
                    self.origins@[shape_index as int].base@,
                    self.origins@[shape_index as int].index,
                )
            } else {
                r is None
            },
    {
        match self.origin(shape_index) {
            Some(o) => Some(RuFormat.path_for(o.base.as_str(), o.index)),
            None => None,
        }
    }

    /// The textures that the first `n` loaded shapes ask for.
    pub open spec fn shapes_want(self, v: Seq<LoadedShape>, n: nat) -> Seq<Wanted>
        decreases n,
    {
        if n == 0 {
            Seq::empty()
        } else {
            let before = self.shapes_want(v, (n - 1) as nat);
            let i = v[n - 1].shape_index;
            let units = batches(v[n - 1].geometry.units@);
            if i < self.origins@.len() {
                before + units_want(units, i, self.origins@[i as int].base@, units.len())
            } else {
                before
            }
        }
    }

    /// The textures that the first `n` characters ask for: a bitmap is its own.
    pub open spec fn bitmaps_want(self, m: model::Movie, n: nat) -> Seq<Wanted>
        decreases n,
    {
        if n == 0 {
            Seq::empty()
        } else {
            let before = self.bitmaps_want(m, (n - 1) as nat);
            let i = (n - 1) as u32;
            if m.characters[n - 1] is Character && m.characters[n - 1]->Character_0 is Bitmap && i
                < self.origins@.len() {
                before.push(
                    Wanted {
                        shape_index: i,
                        bitmap_character_id: i,
                        base: self.origins@[i as int].base@,
                    },
                )
            } else {
                before
            }
        }
    }

    /// The textures to load: those that the shapes' geometry names, and those of
    /// bitmap characters. None where colors are to do.
    pub fn texture_requests(&self, movie: &Movie, shapes: &Vec<LoadedShape>) -> (out: Vec<
        TextureRequest,
    >)
        ensures
            model::views(out@) == if self.with_textures {
                self.shapes_want(shapes@, shapes@.len()) + self.bitmaps_want(
                    movie@,
                    movie@.characters.len(),
                )
            } else {
                Seq::<Wanted>::empty()
            },
    {
        let mut out: Vec<TextureRequest> = Vec::new();
        assert(model::views(out@) =~= Seq::<Wanted>::empty());
        if !self.with_textures {
            return out;
        }
        let mut i: usize = 0;
        while i < shapes.len()
            invariant
                i <= shapes@.len(),
                model::views(out@) == self.shapes_want(shapes@, i as nat),
            decreases shapes@.len() - i,
        {
            let s = &shapes[i];
            if let Some(o) = self.origin(s.shape_index) {
                push_units(&mut out, &s.geometry, s.shape_index, o.base.as_str());
            }
            i = i + 1;
        }
        let ghost m = movie@;
        let ghost before = model::views(out@);
        let mut i: usize = 0;
        assert(before + self.bitmaps_want(m, 0) =~= before);
        while i < movie.characters.len()
            invariant
                m == movie@,
                i <= movie.characters@.len(),
                model::views(out@) == before + self.bitmaps_want(m, i as nat),
            decreases movie.characters@.len() - i,
        {
            assert(m.characters[i as int] == movie.characters@[i as int]@);
            let id: u32 = i as u32;
            if let CharacterSlot::Character(Character::Bitmap) = &movie.characters[i] {
                if let Some(o) = self.origin(id) {
                    let x = TextureRequest {
                        shape_index: id,
                        bitmap_character_id: id,
                        base: o.base.clone(),
                    };
                    let ghost seen = model::views(out@);
                    out.push(x);
                    assert(model::views(out@) =~= seen.push(x@));
                }
            }
            i = i + 1;
            assert(model::views(out@) =~= before + self.bitmaps_want(m, i as nat));
        }
        out
    }

    /// The identity of a texture of a movie.
    pub fn key(base: &str, texture_id: u32) -> (k: String)
        ensures
            k@ == texture_key(base@, texture_id),
    {
        let mut out = text::copy_of(base);
        text::push_text(&mut out, "#");
        text::push_decimal(&mut out, texture_id);
        out
    }
}

fn push_units(out: &mut Vec<TextureRequest>, g: &ShapeGeometry, shape_index: u32, base: &str)
    ensures
        model::views(final(out)@) == model::views(old(out)@) + units_want(
            batches(g.units@),
            shape_index,
            base@,
            g.units@.len(),
        ),
{
    let ghost units = batches(g.units@);
    let ghost before = model::views(out@);
    let mut i: usize = 0;
    assert(before + units_want(units, shape_index, base@, 0) =~= before);
    while i < g.units.len()
        invariant
            units == batches(g.units@),
            i <= g.units@.len(),
            model::views(out@) == before + units_want(units, shape_index, base@, i as nat),
        decreases g.units@.len() - i,
    {
        assert(units[i as int] == g.units@[i as int]@);
        if let Style::Textured { bitmap_character_id, .. } = &g.units[i].style {
            let x = TextureRequest {
                shape_index,
                bitmap_character_id: *bitmap_character_id,
                base: text::copy_of(base),
            };
            let ghost seen = model::views(out@);
            out.push(x);
            assert(model::views(out@) =~= seen.push(x@));
        }
        i = i + 1;
        assert(model::views(out@) =~= before + units_want(units, shape_index, base@, i as nat));
    }
}

/// Two textures of one movie have the same identity only where they are the same.
pub proof fn law_texture_key(base: Seq<char>, a: u32, b: u32)
    requires
        texture_key(base, a) == texture_key(base, b),
    ensures
        a == b,
{
    reveal_strlit("#");
    let n = base.len() + 1;
    assert(texture_key(base, a).skip(n as int) =~= text::decimal(a as nat));
    assert(texture_key(base, b).skip(n as int) =~= text::decimal(b as nat));
    text::lemma_decimal(a as nat);
    text::lemma_decimal(b as nat);
}

} // verus!
