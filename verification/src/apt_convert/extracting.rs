//! Shapes and images of a SWF file, for the geometry, texture and `.dat` files that
//! APT keeps outside the `.apt` file.
use super::bitmaps;
use super::from_swf::{bad_tag, in_order, is_shape, read_tags, tag_of, tags_of};
use super::geometry::{self, ShapeOutline};
use super::recovering::{self, Tag};
use super::swf_read::{self, Unpacked};
use super::zlib;
use super::{Error, ReadFault, Trouble};
use crate::apt_aux::dat::TextureMap;
use crate::apt_aux::image_codec::Bitmap;
use crate::apt_aux::table;
use crate::apt_aux::texture::{
    self, pack_textures, PackedRect, Texture,
};
use std::collections::BTreeMap;
use vstd::prelude::*;

verus! {

/// The texture that every image goes to where they are packed into an atlas.
pub const ATLAS_TEXTURE_ID: u32 = 1;

/// The greatest side of an atlas.
pub const ATLAS_MAX_WIDTH: u32 = 2048;

/// Values by character, in ascending order.
pub struct Table<T> {
    pub ids: Vec<u32>,
    pub values: Vec<T>,
}

impl<T> Table<T> {
    pub open spec fn valid(self) -> bool {
        &&& self.ids@.len() == self.values@.len()
        &&& forall|i: int, j: int| 0 <= i < j < self.ids@.len() ==> self.ids@[i] < self.ids@[j]
    }

    /// What is held for each character.
    pub open spec fn map(self) -> Map<u32, T> {
        Map::new(
            |id: u32| self.ids@.contains(id),
            |id: u32| self.values@[self.ids@.index_of(id)],
        )
    }

    pub fn new() -> (t: Table<T>)
        ensures
            t.valid(),
            t.map() == Map::<u32, T>::empty(),
    {
        let t = Table { ids: Vec::new(), values: Vec::new() };
        assert(t.map() =~= Map::<u32, T>::empty());
        t
    }

    /// Holds a value for a character, in place of what was held for it.
    pub fn put(&mut self, id: u32, value: T)
        requires
            old(self).valid(),
        ensures
            final(self).valid(),
            final(self).map() == old(self).map().insert(id, value),
    {
        let ghost was = *self;
        let mut i: usize = 0;
        while i < self.ids.len() && self.ids[i] < id
            invariant
                *self == was,
                was.valid(),
                i <= was.ids@.len(),
                forall|j: int| 0 <= j < i ==> #[trigger] was.ids@[j] < id,
            decreases was.ids@.len() - i,
        {
            i = i + 1;
        }
        if i < self.ids.len() && self.ids[i] == id {
            self.values.set(i, value);
            proof {
                lemma_table(was);
                lemma_table(*self);
                assert(self.map() =~= was.map().insert(id, value)) by {
                    assert(was.ids@[i as int] == id);
                    assert forall|k: u32| #[trigger]
                        self.ids@.contains(k) implies self.map()[k] == was.map().insert(
                        id,
                        value,
                    )[k] by {
                        let j = self.ids@.index_of(k);
                        assert(self.ids@[j] == k);
                    }
                }
            }
        } else {
            self.ids.insert(i, id);
            self.values.insert(i, value);
            proof {
                let now = *self;
                assert forall|a: int, b: int| 0 <= a < b < now.ids@.len() implies now.ids@[a]
                    < now.ids@[b] by {
                    if b > i {
                        assert(now.ids@[b] == was.ids@[b - 1]);
                        if i < b - 1 {
                            assert(was.ids@[i as int] < was.ids@[b - 1]);
                        }
                    }
                    if a > i {
                        assert(now.ids@[a] == was.ids@[a - 1]);
                    }
                }
                lemma_table(was);
                lemma_table(now);
                assert(now.ids@[i as int] == id);
                assert forall|k: u32| #[trigger] now.ids@.contains(k) <==> k == id
                    || was.ids@.contains(k) by {
                    if now.ids@.contains(k) {
                        let j = now.ids@.index_of(k);
                        assert(now.ids@[j] == k);
                        if j < i {
                            assert(was.ids@[j] == k);
                        } else if j > i {
                            assert(was.ids@[j - 1] == k);
                        }
                    }
                    if was.ids@.contains(k) {
                        let j = was.ids@.index_of(k);
                        assert(was.ids@[j] == k);
                        if j < i {
                            assert(now.ids@[j] == k);
                        } else {
                            assert(now.ids@[j + 1] == k);
                        }
                    }
                }
                assert forall|k: u32| #[trigger]
                    now.ids@.contains(k) implies now.map()[k] == was.map().insert(id, value)[k] by {
                    let j = now.ids@.index_of(k);
                    assert(now.ids@[j] == k);
                    if j < i {
                        assert(was.ids@[j] == k);
                    } else if j > i {
                        assert(was.ids@[j - 1] == k);
                    }
                }
                assert(now.map() =~= was.map().insert(id, value));
            }
        }
    }
}

/// Each character is in one place.
proof fn lemma_table<T>(t: Table<T>)
    requires
        t.valid(),
    ensures
        forall|i: int|
            0 <= i < t.ids@.len() ==> #[trigger] t.ids@.contains(t.ids@[i]) && t.ids@.index_of(
                t.ids@[i],
            ) == i && t.map()[t.ids@[i]] == t.values@[i],
        forall|k: u32|
            t.ids@.contains(k) ==> 0 <= #[trigger] t.ids@.index_of(k) < t.ids@.len()
                && t.ids@[t.ids@.index_of(k)] == k,
{
    assert forall|i: int| 0 <= i < t.ids@.len() implies #[trigger] t.ids@.contains(t.ids@[i])
        && t.ids@.index_of(t.ids@[i]) == i && t.map()[t.ids@[i]] == t.values@[i] by {
        let j = t.ids@.index_of(t.ids@[i]);
        assert(t.ids@.contains(t.ids@[i]));
        assert(t.ids@[j] == t.ids@[i]);
        if j < i {
            assert(t.ids@[j] < t.ids@[i]);
        } else if i < j {
            assert(t.ids@[i] < t.ids@[j]);
        }
    }
}

/// What was found in a file: the tags of shapes and the images, by character.
#[verifier::ext_equal]
pub struct Found {
    pub shapes: Map<u32, Seq<u8>>,
    pub images: Map<u32, Bitmap>,
}

pub open spec fn is_jpeg(code: u16) -> bool {
    code == recovering::TAG_DEFINE_JPEG2 || code == recovering::TAG_DEFINE_JPEG3 || code
        == recovering::TAG_DEFINE_JPEG4
}

pub open spec fn is_lossless(code: u16) -> bool {
    code == recovering::TAG_DEFINE_LOSSLESS || code == recovering::TAG_DEFINE_LOSSLESS2
}

/// The image of a tag with its character, where it can be decoded.
pub open spec fn image_in(t: Tag, version: u8) -> Option<(u32, Bitmap)> {
    if is_jpeg(t.code) {
        match swf_read::jpeg_in(t.all, version) {
            Some(j) => match bitmaps::jpeg3_of(j.data, j.alpha_data) {
                Some(b) => Some((j.id as u32, b)),
                None => None,
            },
            None => None,
        }
    } else if is_lossless(t.code) {
        match swf_read::lossless_in(t.all, version) {
            Some(l) => match zlib::inflated(l.data) {
                Some(raw) => match bitmaps::image_of(l, raw) {
                    Some(b) => Some((l.id as u32, b)),
                    None => None,
                },
                None => None,
            },
            None => None,
        }
    } else {
        None
    }
}

impl Found {
    pub open spec fn nothing() -> Found {
        Found { shapes: Map::empty(), images: Map::empty() }
    }

    /// With a tag that is not a sprite. An image that cannot be decoded is left out.
    pub open spec fn with(self, t: Tag, version: u8) -> Found {
        if recovering::is_shape(t.code) {
            if geometry::is_whole(t.all, version) {
                Found {
                    shapes: self.shapes.insert(
                        (swf_read::shape_head_in(t.all, version)->0).id as u32,
                        t.all,
                    ),
                    ..self
                }
            } else {
                self
            }
        } else {
            match image_in(t, version) {
                Some((id, b)) => Found { images: self.images.insert(id, b), ..self },
                None => self,
            }
        }
    }
}

/// What is found in a list of tags, sprites and all.
pub open spec fn collected(d: Seq<u8>, version: u8, f: Found) -> Result<Found, Trouble>
    decreases d.len(), 1nat, 0nat,
{
    match recovering::tags(d, version, 0) {
        Some(v) => collected_tags(d, v, version, v.len(), f),
        None => recovering::bad_tag(),
    }
}

/// What is found in the first `n` of the tags of `d`.
pub open spec fn collected_tags(
    d: Seq<u8>,
    v: Seq<Tag>,
    version: u8,
    n: nat,
    f: Found,
) -> Result<Found, Trouble>
    decreases d.len(), 0nat, n,
{
    if n == 0 {
        Ok(f)
    } else {
        match collected_tags(d, v, version, (n - 1) as nat, f) {
            Ok(g) => {
                let t = v[n - 1];
                if t.code == recovering::TAG_DEFINE_SPRITE {
                    if 4 <= t.body.len() < d.len() {
                        collected(t.body.skip(4), version, g)
                    } else {
                        recovering::bad_tag()
                    }
                } else {
                    Ok(g.with(t, version))
                }
            },
            Err(e) => Err(e),
        }
    }
}

/// Shapes and images that are being collected.
pub struct Finds {
    pub shapes: Table<ShapeOutline>,
    pub images: Table<Texture>,
}

impl Finds {
    /// Whether these are the shapes and images that were found.
    pub open spec fn are(self, f: Found, version: u8) -> bool {
        &&& self.shapes.valid()
        &&& self.images.valid()
        &&& self.shapes.map().dom() == f.shapes.dom()
        &&& forall|id: u32| #[trigger]
            f.shapes.dom().contains(id) ==> self.shapes.map()[id].read_from(f.shapes[id], version)
        &&& self.images.map().dom() == f.images.dom()
        &&& forall|id: u32| #[trigger]
            f.images.dom().contains(id) ==> self.images.map()[id]@ == f.images[id]
    }

    fn take(&mut self, d: &[u8], s: recovering::Span, version: u8, Ghost(f): Ghost<Found>)
        requires
            in_order(s, d@.len()),
            old(self).are(f, version),
            s.code != recovering::TAG_DEFINE_SPRITE,
        ensures
            final(self).are(f.with(tag_of(d@, s), version), version),
    {
        let tag = vstd::slice::slice_subrange(d, s.start, s.end);
        let ghost t = tag_of(d@, s);
        let ghost g = f.with(t, version);
        assert(tag@ == t.all);
        if is_shape(s.code) {
            if let Some(shape) = geometry::extract_shape_geometry(tag, version) {
                let id: u32 = shape.head.id as u32;
                self.shapes.put(id, shape);
                assert(self.shapes.map().dom() =~= g.shapes.dom());
            }
        } else if s.code == recovering::TAG_DEFINE_JPEG2 || s.code == recovering::TAG_DEFINE_JPEG3
            || s.code == recovering::TAG_DEFINE_JPEG4 {
            if let Some(j) = swf_read::jpeg(tag, version) {
                if let Some(texture) = bitmaps::decode_jpeg3(&j) {
                    self.images.put(j.id as u32, texture);
                    assert(self.images.map().dom() =~= g.images.dom());
                }
            }
        } else if s.code == recovering::TAG_DEFINE_LOSSLESS || s.code
            == recovering::TAG_DEFINE_LOSSLESS2 {
            if let Some(l) = swf_read::lossless(tag, version) {
                if let Some(texture) = bitmaps::decode_lossless(&l) {
                    self.images.put(l.id as u32, texture);
                    assert(self.images.map().dom() =~= g.images.dom());
                }
            }
        }
    }
}

proof fn lemma_collected_stops(d: Seq<u8>, v: Seq<Tag>, version: u8, a: nat, b: nat, f: Found)
    requires
        a <= b,
        collected_tags(d, v, version, a, f) is Err,
    ensures
        collected_tags(d, v, version, b, f) == collected_tags(d, v, version, a, f),
    decreases b,
{
    if a < b {
        lemma_collected_stops(d, v, version, a, (b - 1) as nat, f);
    }
}

/// Collects the shapes and images of a list of tags, going into sprites, since some
/// encoders nest definitions there.
fn collect_shapes_and_bitmaps(
    d: &[u8],
    version: u8,
    finds: &mut Finds,
    Ghost(f): Ghost<Found>,
) -> (r: Result<(), Error>)
    requires
        old(finds).are(f, version),
    ensures
        match collected(d@, version, f) {
            Ok(g) => r is Ok && final(finds).are(g, version),
            Err(e) => r matches Err(x) && x@ == e,
        },
    decreases d@.len(),
{
    let spans = match read_tags(d, version) {
        Some(v) => v,
        None => return Err(bad_tag()),
    };
    let ghost v = tags_of(d@, spans@);
    let ghost mut g = f;
    let mut i: usize = 0;
    while i < spans.len()
        invariant
            i <= spans@.len(),
            v == tags_of(d@, spans@),
            recovering::tags(d@, version, 0) == Some(v),
            forall|k: int| 0 <= k < spans@.len() ==> in_order(#[trigger] spans@[k], d@.len()),
            collected_tags(d@, v, version, i as nat, f) == Ok::<Found, Trouble>(g),
            finds.are(g, version),
        decreases spans@.len() - i,
    {
        let s = spans[i];
        let ghost t = tag_of(d@, s);
        assert(v[i as int] == t);
        assert(in_order(spans@[i as int], d@.len()));
        if s.code == recovering::TAG_DEFINE_SPRITE {
            assert(t.body.len() == s.end - s.body);
            if s.end - s.body < 4 {
                proof {
                    lemma_collected_stops(d@, v, version, (i + 1) as nat, v.len(), f);
                }
                return Err(bad_tag());
            }
            let inner = vstd::slice::slice_subrange(d, s.body + 4, s.end);
            assert(inner@ =~= t.body.skip(4));
            let r = collect_shapes_and_bitmaps(inner, version, finds, Ghost(g));
            match r {
                Ok(_) => {
                    proof {
                        g = collected(inner@, version, g)->Ok_0;
                    }
                },
                Err(e) => {
                    proof {
                        lemma_collected_stops(d@, v, version, (i + 1) as nat, v.len(), f);
                    }
                    return Err(e);
                },
            }
        } else {
            finds.take(d, s, version, Ghost(g));
            proof {
                g = g.with(t, version);
            }
        }
        i = i + 1;
    }
    Ok(())
}

/// An atlas, and where each image is in it.
pub struct Atlas {
    pub texture: Texture,
    /// One place per image, in the order of their characters.
    pub places: Vec<PackedRect>,
}

/// Shapes and textures recovered from a SWF file.
pub struct ExtractedAssets {
    /// Shapes by character.
    pub shapes: Table<ShapeOutline>,
    /// Every image, by character.
    pub images: Table<Texture>,
    /// The images packed into one shared atlas; `None` where there are none, or where
    /// they do not fit and are textures of their own.
    pub atlas: Option<Atlas>,
    /// Image character to texture: all to the one atlas, or each to its own.
    pub texture_map: TextureMap,
}

impl ExtractedAssets {
    pub open spec fn texture_for(self, id: u32) -> u32 {
        if self.atlas is Some {
            ATLAS_TEXTURE_ID
        } else {
            id
        }
    }

    /// Whether the images are in the atlas, and the map says where each is.
    pub open spec fn packed(self) -> bool {
        &&& self.texture_map@.dom() == self.images.map().dom()
        &&& forall|id: u32| #[trigger]
            self.texture_map@.dom().contains(id) ==> self.texture_map@[id] == self.texture_for(id)
        &&& if packable(self.images.values@) {
            texture::packing(
                self.images.values@,
                ATLAS_MAX_WIDTH as int,
                match self.atlas {
                    Some(a) => Some((a.texture, a.places@)),
                    None => None,
                },
            )
        } else {
            self.atlas is None
        }
    }
}

/// Whether textures have all their bytes and sides that a gutter can be added to.
pub open spec fn packable(v: Seq<Texture>) -> bool {
    forall|i: int|
        0 <= i < v.len() ==> (#[trigger] v[i]).whole() && v[i].width < u32::MAX && v[i].height
            < u32::MAX
}

fn can_pack(v: &Vec<Texture>) -> (b: bool)
    ensures
        b == packable(v@),
{
    let mut i: usize = 0;
    while i < v.len()
        invariant
            i <= v@.len(),
            forall|k: int|
                0 <= k < i ==> (#[trigger] v@[k]).whole() && v@[k].width < u32::MAX
                    && v@[k].height < u32::MAX,
        decreases v@.len() - i,
    {
        let t = &v[i];
        let ghost (w, h) = (t.width as int, t.height as int);
        assert(w * h <= 0xFFFF_FFFF * 0xFFFF_FFFF) by (nonlinear_arith)
            requires
                0 <= w <= 0xFFFF_FFFF,
                0 <= h <= 0xFFFF_FFFF,
        ;
        let size: u128 = 4 * (t.width as u64 * t.height as u64) as u128;
        if t.rgba.len() as u128 != size || t.width == u32::MAX || t.height == u32::MAX {
            assert(!(v@[i as int].whole() && v@[i as int].width < u32::MAX && v@[i as int].height
                < u32::MAX));
            return false;
        }
        i = i + 1;
    }
    true
}

/// Packs the images into an atlas where they fit, and maps their characters to
/// textures.
pub fn pack_images(finds: Finds) -> (x: ExtractedAssets)
    requires
        finds.images.valid(),
    ensures
        x.shapes == finds.shapes,
        x.images == finds.images,
        x.packed(),
{
    let packed = if can_pack(&finds.images.values) {
        pack_textures(finds.images.values.as_slice(), ATLAS_MAX_WIDTH)
    } else {
        None
    };
    let atlas = match packed {
        Some((texture, places)) => Some(Atlas { texture, places }),
        None => None,
    };
    let shared = atlas.is_some();
    let mut entries: BTreeMap<u32, u32> = BTreeMap::new();
    let ghost ids = finds.images.ids@;
    let mut i: usize = 0;
    assert(entries@ =~= Map::<u32, u32>::empty());
    while i < finds.images.ids.len()
        invariant
            ids == finds.images.ids@,
            i <= ids.len(),
            forall|k: u32| #[trigger]
                entries@.dom().contains(k) <==> exists|j: int| 0 <= j < i && ids[j] == k,
            forall|k: u32| #[trigger]
                entries@.dom().contains(k) ==> entries@[k] == if shared {
                    ATLAS_TEXTURE_ID
                } else {
                    k
                },
        decreases ids.len() - i,
    {
        let id: u32 = finds.images.ids[i];
        let target: u32 = if shared {
            ATLAS_TEXTURE_ID
        } else {
            id
        };
        let ghost was = entries@;
        table::put(&mut entries, id, target);
        proof {
            assert forall|k: u32| #[trigger] entries@.dom().contains(k) <==> exists|j: int|
                0 <= j < i + 1 && ids[j] == k by {
                if k == id {
                    assert(ids[i as int] == k);
                }
                if was.dom().contains(k) {
                    let j = choose|j: int| 0 <= j < i && ids[j] == k;
                    assert(ids[j] == k);
                }
            }
        }
        i = i + 1;
    }
    let texture_map = TextureMap { entries };
    assert(texture_map@.dom() =~= finds.images.map().dom());
    ExtractedAssets { shapes: finds.shapes, images: finds.images, atlas, texture_map }
}

/// The shapes and images of an unpacked SWF file.
pub fn collect(u: &Unpacked) -> (r: Result<Finds, Error>)
    ensures
        match collected(u@.tags, u@.version, Found::nothing()) {
            Ok(f) => r matches Ok(x) && x.are(f, u@.version),
            Err(e) => r matches Err(x) && x@ == e,
        },
{
    let mut finds = Finds { shapes: Table::new(), images: Table::new() };
    let ghost f = Found::nothing();
    assert(finds.shapes.map().dom() =~= f.shapes.dom());
    assert(finds.images.map().dom() =~= f.images.dom());
    match collect_shapes_and_bitmaps(u.tags.as_slice(), u.version, &mut finds, Ghost(f)) {
        Ok(_) => Ok(finds),
        Err(e) => Err(e),
    }
}

/// Extract shapes and bitmap-fill textures from a SWF file, for the files beside the
/// `.apt` file.
pub fn extract_geometry(swf_data: &[u8]) -> (r: Result<ExtractedAssets, Error>)
    ensures
        match swf_read::unpacked(swf_data@) {
            Some(u) => match collected(u.tags, u.version, Found::nothing()) {
                Ok(f) => r matches Ok(x) && (Finds { shapes: x.shapes, images: x.images }).are(
                    f,
                    u.version,
                ) && x.packed(),
                Err(e) => r matches Err(x) && x@ == e,
            },
            None => r matches Err(x) && x@ == Trouble::SwfRead(ReadFault::BadFile),
        },
{
    let u = match swf_read::decompress(swf_data) {
        Some(u) => u,
        None => return Err(Error::SwfRead(ReadFault::BadFile)),
    };
    match collect(&u) {
        Ok(finds) => Ok(pack_images(finds)),
        Err(e) => Err(e),
    }
}

} // verus!
