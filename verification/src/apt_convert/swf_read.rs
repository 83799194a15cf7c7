//! What the `swf` crate reads from the bytes of a SWF file and of its tags.
use super::swf_model as scene;
use super::swf_movie::{text_of, Asset, ClipHandler};
use crate::apt::model;
use crate::apt::types::F32Bits;
use std::iter::once;
use swf::read::Reader;
use swf::FillStyle::{Bitmap, FocalGradient, LinearGradient, RadialGradient};
use swf::{FillStyle, ShapeRecord, Tag};
use vstd::prelude::*;

verus! {

/// A SWF file unpacked: its version, its stage in twips, its frame rate in 1/256
/// and its tags.
pub struct Unpacked {
    pub version: u8,
    pub x_min: i32,
    pub x_max: i32,
    pub y_min: i32,
    pub y_max: i32,
    pub frame_rate: i16,
    pub tags: Vec<u8>,
}

/// The counterpart of [`Unpacked`] that contracts speak of.
#[verifier::ext_equal]
pub struct Contents {
    pub version: u8,
    pub x_min: i32,
    pub x_max: i32,
    pub y_min: i32,
    pub y_max: i32,
    pub frame_rate: i16,
    pub tags: Seq<u8>,
}

impl View for Unpacked {
    type V = Contents;

    open spec fn view(&self) -> Contents {
        Contents {
            version: self.version,
            x_min: self.x_min,
            x_max: self.x_max,
            y_min: self.y_min,
            y_max: self.y_max,
            frame_rate: self.frame_rate,
            tags: self.tags@,
        }
    }
}

/// A shape's character, its winding rule and its bounds in twips.
#[derive(Debug, Clone, Copy, PartialEq, Eq, Structural)]
pub struct ShapeHead {
    pub id: u16,
    pub nonzero: bool,
    pub x_min: i32,
    pub x_max: i32,
    pub y_min: i32,
    pub y_max: i32,
}

/// What a placement does to the object at its depth.
#[derive(Debug, Clone, Copy, PartialEq, Eq, Structural)]
pub enum Placing {
    Place(u16),
    Modify,
    Replace(u16),
    Nothing,
}

/// A placement without its matrix, colors, handlers and filters.
pub struct PlaceHead {
    pub action: Placing,
    pub depth: u16,
    pub ratio: Option<u16>,
    pub name: Option<String>,
    pub clip_depth: Option<u16>,
    pub blend_mode: Option<u8>,
}

/// The counterpart of [`PlaceHead`] that contracts speak of.
#[verifier::ext_equal]
pub struct PlaceCore {
    pub action: Placing,
    pub depth: u16,
    pub ratio: Option<u16>,
    pub name: Option<Seq<char>>,
    pub clip_depth: Option<u16>,
    pub blend_mode: Option<u8>,
}

impl View for PlaceHead {
    type V = PlaceCore;

    open spec fn view(&self) -> PlaceCore {
        PlaceCore {
            action: self.action,
            depth: self.depth,
            ratio: self.ratio,
            name: text_of(self.name),
            clip_depth: self.clip_depth,
            blend_mode: self.blend_mode,
        }
    }
}

/// A matrix: 16.16 fixed-point numbers, and twips.
#[derive(Debug, Clone, Copy, PartialEq, Eq, Structural)]
pub struct FixedMatrix {
    pub a: i32,
    pub b: i32,
    pub c: i32,
    pub d: i32,
    pub tx: i32,
    pub ty: i32,
}

/// A color transform: factors in 1/256, and summands.
#[derive(Debug, Clone, Copy, PartialEq, Eq, Structural)]
pub struct FixedColors {
    pub r_multiply: i16,
    pub g_multiply: i16,
    pub b_multiply: i16,
    pub a_multiply: i16,
    pub r_add: i16,
    pub g_add: i16,
    pub b_add: i16,
    pub a_add: i16,
}

/// The parameters of a filter; those that its kind lacks are zero. Colors are ARGB
/// numbers. Blurs, angle and distance are 16.16 fixed-point numbers, the strength is
/// one in 1/256. The second color of a bevel is that of its highlight.
#[derive(Debug, Clone, Copy, Default, PartialEq, Eq, Structural)]
pub struct FilterParts {
    pub color: u32,
    pub second: u32,
    pub blur_x: i32,
    pub blur_y: i32,
    pub angle: i32,
    pub distance: i32,
    pub strength: i16,
    pub flags: u8,
}

/// A gradient filter.
pub struct GradientParts {
    pub colors: Vec<u32>,
    pub ratios: Vec<u8>,
    pub blur_x: i32,
    pub blur_y: i32,
    pub angle: i32,
    pub distance: i32,
    pub strength: i16,
    pub flags: u8,
}

/// The counterpart of [`GradientParts`] that contracts speak of.
#[verifier::ext_equal]
pub struct GradientData {
    pub colors: Seq<u32>,
    pub ratios: Seq<u8>,
    pub blur_x: i32,
    pub blur_y: i32,
    pub angle: i32,
    pub distance: i32,
    pub strength: i16,
    pub flags: u8,
}

impl View for GradientParts {
    type V = GradientData;

    open spec fn view(&self) -> GradientData {
        GradientData {
            colors: self.colors@,
            ratios: self.ratios@,
            blur_x: self.blur_x,
            blur_y: self.blur_y,
            angle: self.angle,
            distance: self.distance,
            strength: self.strength,
            flags: self.flags,
        }
    }
}

/// The counterparts of values that may be missing.
pub open spec fn some_views<T: View>(v: Seq<Option<T>>) -> Seq<Option<T::V>> {
    Seq::new(
        v.len(),
        |i: int|
            match v[i] {
                Some(x) => Some(x@),
                None => None,
            },
    )
}

/// A change of styles in a shape; `renewed` where a new table of styles begins.
#[derive(Debug, Clone, Copy, PartialEq, Eq)]
pub struct StyleChange {
    pub move_to: Option<(i32, i32)>,
    pub fill0: Option<u32>,
    pub fill1: Option<u32>,
    pub line: Option<u32>,
    pub renewed: bool,
}

/// An edge of a shape, in twips.
#[derive(Debug, Clone, Copy, PartialEq, Eq, Structural)]
pub enum EdgeStep {
    /// A straight edge.
    Line { dx: i32, dy: i32 },
    /// A curve: to its control point, and from there to its end.
    Curve { cx: i32, cy: i32, ax: i32, ay: i32 },
}

/// The image that an area of a shape is painted with.
#[derive(Debug, Clone, Copy, PartialEq, Eq, Structural)]
pub struct ImagePaint {
    /// The character of the image.
    pub id: u16,
    pub repeating: bool,
}

/// What tables hold, seen as sequences.
pub open spec fn tables<T>(v: Seq<Vec<T>>) -> Seq<Seq<T>> {
    Seq::new(v.len(), |i: int| v[i]@)
}

/// What tables of lists hold, seen as sequences.
pub open spec fn lists<T>(v: Seq<Vec<Vec<T>>>) -> Seq<Seq<Seq<T>>> {
    Seq::new(v.len(), |i: int| tables(v[i]@))
}

/// How the pixels of a lossless image are stored.
#[derive(Debug, Clone, Copy, PartialEq, Eq, Structural)]
pub enum PixelFormat {
    ColorMap8 { num_colors: u8 },
    Rgb15,
    Rgb32,
}

/// A lossless image. Version 2 has alpha.
pub struct Lossless {
    pub version: u8,
    pub id: u16,
    pub format: PixelFormat,
    pub width: u16,
    pub height: u16,
    pub data: Vec<u8>,
}

/// The counterpart of [`Lossless`] that contracts speak of.
#[verifier::ext_equal]
pub struct LosslessData {
    pub version: u8,
    pub id: u16,
    pub format: PixelFormat,
    pub width: u16,
    pub height: u16,
    pub data: Seq<u8>,
}

impl View for Lossless {
    type V = LosslessData;

    open spec fn view(&self) -> LosslessData {
        LosslessData {
            version: self.version,
            id: self.id,
            format: self.format,
            width: self.width,
            height: self.height,
            data: self.data@,
        }
    }
}

/// A JPEG image with its compressed alpha channel, which may be empty.
pub struct Jpeg {
    pub id: u16,
    pub data: Vec<u8>,
    pub alpha_data: Vec<u8>,
}

/// The counterpart of [`Jpeg`] that contracts speak of.
#[verifier::ext_equal]
pub struct JpegData {
    pub id: u16,
    pub data: Seq<u8>,
    pub alpha_data: Seq<u8>,
}

impl View for Jpeg {
    type V = JpegData;

    open spec fn view(&self) -> JpegData {
        JpegData { id: self.id, data: self.data@, alpha_data: self.alpha_data@ }
    }
}

/// What `swf::decompress_swf` makes of a file.
pub uninterp spec fn unpacked(data: Seq<u8>) -> Option<Contents>;

/// Whether `swf::read::Reader::read_tag` accepts a tag.
pub uninterp spec fn accepted(tag: Seq<u8>, version: u8) -> bool;

/// The head of the shape that `swf::read::Reader::read_tag` reads.
pub uninterp spec fn shape_head_in(tag: Seq<u8>, version: u8) -> Option<ShapeHead>;

/// The records of the shape that `swf::read::Reader::read_tag` reads; `None` stands
/// for an edge.
pub uninterp spec fn style_changes_in(tag: Seq<u8>, version: u8) -> Option<
    Seq<Option<StyleChange>>,
>;

/// The records of the shape that `swf::read::Reader::read_tag` reads; `None` stands
/// for a change of styles.
pub uninterp spec fn edges_in(tag: Seq<u8>, version: u8) -> Option<Seq<Option<EdgeStep>>>;

/// The colors of the fill styles of the shape that `swf::read::Reader::read_tag`
/// reads, those of the stops for a gradient, none for an image: a table for the shape,
/// and one for each of its records, empty where it has none.
pub uninterp spec fn fill_colors_in(tag: Seq<u8>, version: u8) -> Option<Seq<Seq<Seq<u32>>>>;

/// The images of the fill styles of the shape that `swf::read::Reader::read_tag`
/// reads, in tables as the colors are; `None` stands for a fill without an image.
pub uninterp spec fn fill_images_in(tag: Seq<u8>, version: u8) -> Option<
    Seq<Seq<Option<ImagePaint>>>,
>;

/// The matrices of those images, in tables as the colors are: the numbers a, b, c
/// and d in 1/65536, and the offset in twips.
pub uninterp spec fn fill_matrices_in(tag: Seq<u8>, version: u8) -> Option<
    Seq<Seq<Option<[i32; 6]>>>,
>;

/// The colors of the line styles of the shape that `swf::read::Reader::read_tag`
/// reads, in tables as those of the fill styles are.
pub uninterp spec fn line_colors_in(tag: Seq<u8>, version: u8) -> Option<Seq<Seq<Seq<u32>>>>;

/// The widths in twips of the line styles of the shape that
/// `swf::read::Reader::read_tag` reads, in tables as the colors are.
pub uninterp spec fn line_widths_in(tag: Seq<u8>, version: u8) -> Option<Seq<Seq<i32>>>;

/// The exports that `swf::read::Reader::read_tag` reads.
pub uninterp spec fn exports_in(tag: Seq<u8>, version: u8) -> Option<Seq<scene::Asset>>;

/// The imports that `swf::read::Reader::read_tag` reads, with their source.
pub uninterp spec fn imports_in(tag: Seq<u8>, version: u8) -> Option<
    (Seq<char>, Seq<scene::Asset>),
>;

/// The frame label that `swf::read::Reader::read_tag` reads.
pub uninterp spec fn label_in(tag: Seq<u8>, version: u8) -> Option<Seq<char>>;

/// The placement that `swf::read::Reader::read_tag` reads.
pub uninterp spec fn place_in(tag: Seq<u8>, version: u8) -> Option<PlaceCore>;

/// The matrix of the placement that `swf::read::Reader::read_tag` reads.
pub uninterp spec fn matrix_in(tag: Seq<u8>, version: u8) -> Option<FixedMatrix>;

/// The colors of the placement that `swf::read::Reader::read_tag` reads.
pub uninterp spec fn colors_in(tag: Seq<u8>, version: u8) -> Option<FixedColors>;

/// The handlers of the placement that `swf::read::Reader::read_tag` reads.
pub uninterp spec fn clips_in(tag: Seq<u8>, version: u8) -> Option<Seq<scene::ClipHandler>>;

/// The drop shadows among the filters of the placement that
/// `swf::read::Reader::read_tag` reads; `None` stands for another filter.
pub uninterp spec fn shadows_in(tag: Seq<u8>, version: u8) -> Seq<Option<FilterParts>>;

/// The blurs among the filters of the placement that
/// `swf::read::Reader::read_tag` reads; `None` stands for another filter.
pub uninterp spec fn blurs_in(tag: Seq<u8>, version: u8) -> Seq<Option<FilterParts>>;

/// The glows among the filters of the placement that
/// `swf::read::Reader::read_tag` reads; `None` stands for another filter.
pub uninterp spec fn glows_in(tag: Seq<u8>, version: u8) -> Seq<Option<FilterParts>>;

/// The bevels among the filters of the placement that
/// `swf::read::Reader::read_tag` reads; `None` stands for another filter.
pub uninterp spec fn bevels_in(tag: Seq<u8>, version: u8) -> Seq<Option<FilterParts>>;

/// The gradient glows among the filters of the placement that
/// `swf::read::Reader::read_tag` reads; `None` stands for another filter.
pub uninterp spec fn gradient_glows_in(tag: Seq<u8>, version: u8) -> Seq<Option<GradientData>>;

/// The gradient bevels among the filters of the placement that
/// `swf::read::Reader::read_tag` reads; `None` stands for another filter.
pub uninterp spec fn gradient_bevels_in(tag: Seq<u8>, version: u8) -> Seq<Option<GradientData>>;

/// The bit patterns of the color matrices among the filters of the placement that
/// `swf::read::Reader::read_tag` reads; `None` stands for another filter.
pub uninterp spec fn color_matrices_in(tag: Seq<u8>, version: u8) -> Seq<Option<Seq<F32Bits>>>;

/// The JPEG image that `swf::read::Reader::read_tag` reads.
pub uninterp spec fn jpeg_in(tag: Seq<u8>, version: u8) -> Option<JpegData>;

/// The lossless image that `swf::read::Reader::read_tag` reads.
pub uninterp spec fn lossless_in(tag: Seq<u8>, version: u8) -> Option<LosslessData>;

/// Calls `swf::decompress_swf`, which unpacks a file and reads its header.
#[verifier::external_body]
pub(crate) fn decompress(data: &[u8]) -> (r: Option<Unpacked>)
    ensures
        match r {
            Some(u) => unpacked(data@) == Some(u@),
            None => unpacked(data@) is None,
        },
{
    let buf = swf::decompress_swf(data).ok()?;
    let version = buf.header.version();
    let s = buf.header.stage_size();
    let (x_min, x_max) = (s.x_min.get(), s.x_max.get());
    let (y_min, y_max) = (s.y_min.get(), s.y_max.get());
    let frame_rate = buf.header.frame_rate().get();
    Some(Unpacked { version, x_min, x_max, y_min, y_max, frame_rate, tags: buf.data })
}

/// Calls `swf::read::Reader::read_tag` on the bytes of a tag: whether it reads one.
#[verifier::external_body]
pub(crate) fn accepts(tag: &[u8], version: u8) -> (b: bool)
    ensures
        b == accepted(tag@, version),
{
    Reader::new(tag, version).read_tag().is_ok()
}

/// Calls `swf::read::Reader::read_tag`: the character and bounds of a shape, `None`
/// for another tag.
#[verifier::external_body]
pub(crate) fn shape_head(tag: &[u8], version: u8) -> (r: Option<ShapeHead>)
    ensures
        r == shape_head_in(tag@, version),
{
    match Reader::new(tag, version).read_tag().ok()? {
        Tag::DefineShape(s) => {
            let (id, b) = (s.id, &s.shape_bounds);
            let (x_min, x_max) = (b.x_min.get(), b.x_max.get());
            let (y_min, y_max) = (b.y_min.get(), b.y_max.get());
            let nonzero = s.flags.contains(swf::ShapeFlag::NON_ZERO_WINDING_RULE);
            Some(ShapeHead { id, nonzero, x_min, x_max, y_min, y_max })
        },
        _ => None,
    }
}

/// Calls `swf::read::Reader::read_tag`: the records of a shape that change styles,
/// `None` for another tag.
#[verifier::external_body]
pub(crate) fn style_changes(tag: &[u8], version: u8) -> (r: Option<Vec<Option<StyleChange>>>)
    ensures
        match r {
            Some(v) => style_changes_in(tag@, version) == Some(v@),
            None => style_changes_in(tag@, version) is None,
        },
{
    let Tag::DefineShape(s) = Reader::new(tag, version).read_tag().ok()? else { return None; };
    Some(s.shape.into_iter().map(|r| match r {
        ShapeRecord::StyleChange(d) => Some(StyleChange {
            move_to: d.move_to.map(|p| (p.x.get(), p.y.get())),
            fill0: d.fill_style_0, fill1: d.fill_style_1, line: d.line_style,
            renewed: d.new_styles.is_some(),
        }),
        _ => None,
    }).collect())
}

/// Calls `swf::read::Reader::read_tag`: the edges of a shape, `None` for another
/// tag.
#[verifier::external_body]
pub(crate) fn edges(tag: &[u8], version: u8) -> (r: Option<Vec<Option<EdgeStep>>>)
    ensures
        match r {
            Some(v) => edges_in(tag@, version) == Some(v@),
            None => edges_in(tag@, version) is None,
        },
{
    let Tag::DefineShape(s) = Reader::new(tag, version).read_tag().ok()? else { return None; };
    Some(s.shape.into_iter().map(|r| match r {
        ShapeRecord::StraightEdge { delta: d } => {
            Some(EdgeStep::Line { dx: d.dx.get(), dy: d.dy.get() })
        },
        ShapeRecord::CurvedEdge { control_delta: c, anchor_delta: a } => {
            let (cx, cy) = (c.dx.get(), c.dy.get());
            Some(EdgeStep::Curve { cx, cy, ax: a.dx.get(), ay: a.dy.get() })
        },
        _ => None,
    }).collect())
}

/// Calls `swf::read::Reader::read_tag`: the colors of the fill styles of a shape,
/// `None` for another tag.
#[verifier::external_body]
pub(crate) fn fill_colors(tag: &[u8], version: u8) -> (r: Option<Vec<Vec<Vec<u32>>>>)
    ensures
        match r {
            Some(v) => fill_colors_in(tag@, version) == Some(lists(v@)),
            None => fill_colors_in(tag@, version) is None,
        },
{
    let Tag::DefineShape(s) = Reader::new(tag, version).read_tag().ok()? else { return None; };
    Some(once(Some(s.styles)).chain(s.shape.into_iter().map(|r| match r {
        ShapeRecord::StyleChange(d) => d.new_styles,
        _ => None,
    })).map(|t| t.into_iter().flat_map(|t| t.fill_styles).map(|f| match f {
        FillStyle::Color(c) => vec![c.to_rgba()],
        LinearGradient(g) | RadialGradient(g) | FocalGradient { gradient: g, .. } => {
            g.records.iter().map(|r| r.color.to_rgba()).collect()
        },
        _ => vec![],
    }).collect()).collect())
}

/// Calls `swf::read::Reader::read_tag`: the images of the fill styles of a shape,
/// `None` for another tag.
#[verifier::external_body]
pub(crate) fn fill_images(tag: &[u8], version: u8) -> (r: Option<Vec<Vec<Option<ImagePaint>>>>)
    ensures
        match r {
            Some(v) => fill_images_in(tag@, version) == Some(tables(v@)),
            None => fill_images_in(tag@, version) is None,
        },
{
    let Tag::DefineShape(s) = Reader::new(tag, version).read_tag().ok()? else { return None; };
    Some(once(Some(s.styles)).chain(s.shape.into_iter().map(|r| match r {
        ShapeRecord::StyleChange(d) => d.new_styles,
        _ => None,
    })).map(|t| t.into_iter().flat_map(|t| t.fill_styles).map(|f| match f {
        Bitmap { id, is_repeating: repeating, .. } => Some(ImagePaint { id, repeating }),
        _ => None,
    }).collect()).collect())
}

/// Calls `swf::read::Reader::read_tag`: the matrices of the fill styles of a shape,
/// `None` for another tag.
#[verifier::external_body]
pub(crate) fn fill_matrices(tag: &[u8], version: u8) -> (r: Option<Vec<Vec<Option<[i32; 6]>>>>)
    ensures
        match r {
            Some(v) => fill_matrices_in(tag@, version) == Some(tables(v@)),
            None => fill_matrices_in(tag@, version) is None,
        },
{
    let Tag::DefineShape(s) = Reader::new(tag, version).read_tag().ok()? else { return None; };
    Some(once(Some(s.styles)).chain(s.shape.into_iter().map(|r| match r {
        ShapeRecord::StyleChange(d) => d.new_styles,
        _ => None,
    })).map(|t| t.into_iter().flat_map(|t| t.fill_styles).map(|f| match f {
        Bitmap { matrix: m, .. } => {
            Some([m.a.get(), m.b.get(), m.c.get(), m.d.get(), m.tx.get(), m.ty.get()])
        },
        _ => None,
    }).collect()).collect())
}

/// Calls `swf::read::Reader::read_tag`: the colors of the line styles of a shape,
/// `None` for another tag.
#[verifier::external_body]
pub(crate) fn line_colors(tag: &[u8], version: u8) -> (r: Option<Vec<Vec<Vec<u32>>>>)
    ensures
        match r {
            Some(v) => line_colors_in(tag@, version) == Some(lists(v@)),
            None => line_colors_in(tag@, version) is None,
        },
{
    let Tag::DefineShape(s) = Reader::new(tag, version).read_tag().ok()? else { return None; };
    Some(once(Some(s.styles)).chain(s.shape.into_iter().map(|r| match r {
        ShapeRecord::StyleChange(d) => d.new_styles,
        _ => None,
    })).map(|t| t.into_iter().flat_map(|t| t.line_styles).map(|l| match l.fill_style() {
        FillStyle::Color(c) => vec![c.to_rgba()],
        LinearGradient(g) | RadialGradient(g) | FocalGradient { gradient: g, .. } => {
            g.records.iter().map(|r| r.color.to_rgba()).collect()
        },
        _ => vec![],
    }).collect()).collect())
}

/// Calls `swf::read::Reader::read_tag`: the widths of the line styles of a shape in
/// twips, `None` for another tag.
#[verifier::external_body]
pub(crate) fn line_widths(tag: &[u8], version: u8) -> (r: Option<Vec<Vec<i32>>>)
    ensures
        match r {
            Some(v) => line_widths_in(tag@, version) == Some(tables(v@)),
            None => line_widths_in(tag@, version) is None,
        },
{
    let Tag::DefineShape(s) = Reader::new(tag, version).read_tag().ok()? else { return None; };
    Some(once(Some(s.styles)).chain(s.shape.into_iter().map(|r| match r {
        ShapeRecord::StyleChange(d) => d.new_styles,
        _ => None,
    })).map(|t| t.into_iter().flat_map(|t| t.line_styles).map(|l| l.width().get()).collect()).collect())
}

/// Calls `swf::read::Reader::read_tag`: the exports of a tag, `None` for another
/// tag. Names are decoded as the SWF version says.
#[verifier::external_body]
pub(crate) fn exports(tag: &[u8], version: u8) -> (r: Option<Vec<Asset>>)
    ensures
        match r {
            Some(v) => exports_in(tag@, version) == Some(model::views(v@)),
            None => exports_in(tag@, version) is None,
        },
{
    let e = swf::SwfStr::encoding_for_version(version);
    match Reader::new(tag, version).read_tag().ok()? {
        Tag::ExportAssets(v) => Some(
            v.into_iter().map(|a| Asset { id: a.id, name: a.name.to_string_lossy(e) }).collect(),
        ),
        _ => None,
    }
}

/// Calls `swf::read::Reader::read_tag`: the imports of a tag and the file they come
/// from, `None` for another tag. Names are decoded as the SWF version says.
#[verifier::external_body]
pub(crate) fn imports(tag: &[u8], version: u8) -> (r: Option<(String, Vec<Asset>)>)
    ensures
        match r {
            Some(v) => imports_in(tag@, version) == Some((v.0@, model::views(v.1@))),
            None => imports_in(tag@, version) is None,
        },
{
    let e = swf::SwfStr::encoding_for_version(version);
    match Reader::new(tag, version).read_tag().ok()? {
        Tag::ImportAssets { url, imports } => Some((
            url.to_string_lossy(e),
            imports.into_iter().map(|a| Asset { id: a.id, name: a.name.to_string_lossy(e) }).collect(),
        )),
        _ => None,
    }
}

/// Calls `swf::read::Reader::read_tag`: a frame label, `None` for another tag. It is
/// decoded as the SWF version says.
#[verifier::external_body]
pub(crate) fn label(tag: &[u8], version: u8) -> (r: Option<String>)
    ensures
        match r {
            Some(s) => label_in(tag@, version) == Some(s@),
            None => label_in(tag@, version) is None,
        },
{
    let e = swf::SwfStr::encoding_for_version(version);
    match Reader::new(tag, version).read_tag().ok()? {
        Tag::FrameLabel(l) => Some(l.label.to_string_lossy(e)),
        _ => None,
    }
}

/// Calls `swf::read::Reader::read_tag`: a placement, `None` for another tag. Its
/// name is decoded as the SWF version says.
#[verifier::external_body]
pub(crate) fn place_head(tag: &[u8], version: u8) -> (r: Option<PlaceHead>)
    ensures
        match r {
            Some(p) => place_in(tag@, version) == Some(p@),
            None => place_in(tag@, version) is None,
        },
{
    let e = swf::SwfStr::encoding_for_version(version);
    let Tag::PlaceObject(p) = Reader::new(tag, version).read_tag().ok()? else {
        return None;
    };
    let action = match p.action {
        swf::PlaceObjectAction::Place(id) => Placing::Place(id),
        swf::PlaceObjectAction::Modify => Placing::Modify,
        swf::PlaceObjectAction::Replace(id) => Placing::Replace(id),
        swf::PlaceObjectAction::None => Placing::Nothing,
    };
    let name = p.name.map(|s| s.to_string_lossy(e));
    let blend_mode = p.blend_mode.map(|b| b as u8);
    Some(PlaceHead { action, depth: p.depth, ratio: p.ratio, name, clip_depth: p.clip_depth, blend_mode })
}

/// Calls `swf::read::Reader::read_tag`: the matrix of a placement, `None` where it
/// has none and for another tag.
#[verifier::external_body]
pub(crate) fn place_matrix(tag: &[u8], version: u8) -> (r: Option<FixedMatrix>)
    ensures
        r == matrix_in(tag@, version),
{
    match Reader::new(tag, version).read_tag().ok()? {
        Tag::PlaceObject(p) => p.matrix.map(|m| {
            let (a, b, c, d) = (m.a.get(), m.b.get(), m.c.get(), m.d.get());
            FixedMatrix { a, b, c, d, tx: m.tx.get(), ty: m.ty.get() }
        }),
        _ => None,
    }
}

/// Calls `swf::read::Reader::read_tag`: the color transform of a placement, `None`
/// where it has none and for another tag.
#[verifier::external_body]
pub(crate) fn place_colors(tag: &[u8], version: u8) -> (r: Option<FixedColors>)
    ensures
        r == colors_in(tag@, version),
{
    match Reader::new(tag, version).read_tag().ok()? {
        Tag::PlaceObject(p) => p.color_transform.map(|c| FixedColors {
            r_multiply: c.r_multiply.get(),
            g_multiply: c.g_multiply.get(),
            b_multiply: c.b_multiply.get(),
            a_multiply: c.a_multiply.get(),
            r_add: c.r_add,
            g_add: c.g_add,
            b_add: c.b_add,
            a_add: c.a_add,
        }),
        _ => None,
    }
}

/// Calls `swf::read::Reader::read_tag`: the event handlers of a placement, `None`
/// where it has none and for another tag.
#[verifier::external_body]
pub(crate) fn place_clips(tag: &[u8], version: u8) -> (r: Option<Vec<ClipHandler>>)
    ensures
        match r {
            Some(v) => clips_in(tag@, version) == Some(model::views(v@)),
            None => clips_in(tag@, version) is None,
        },
{
    match Reader::new(tag, version).read_tag().ok()? {
        Tag::PlaceObject(p) => p.clip_actions.map(|c| c.records.into_iter().map(|a| {
            let (events, code) = (a.events.bits(), a.action_data.to_vec());
            ClipHandler { events, key_code: a.key_code, code }
        }).collect()),
        _ => None,
    }
}

/// Calls `swf::read::Reader::read_tag`: the filters of a placement in order, a drop shadow
/// with its parts; none for another tag.
#[verifier::external_body]
pub(crate) fn shadows(tag: &[u8], version: u8) -> (r: Vec<Option<FilterParts>>)
    ensures
        r@ == shadows_in(tag@, version),
{
    let Ok(Tag::PlaceObject(p)) = Reader::new(tag, version).read_tag() else { return vec![]; };
    p.filters.into_iter().flatten().map(|f| match f {
        swf::Filter::DropShadowFilter(f) => Some(FilterParts {
            color: f.color.to_rgba(), blur_x: f.blur_x.get(), blur_y: f.blur_y.get(),
            angle: f.angle.get(), distance: f.distance.get(), strength: f.strength.get(),
            flags: f.flags.bits(), ..Default::default()
        }),
        _ => None,
    }).collect()
}

/// Calls `swf::read::Reader::read_tag`: the filters of a placement in order, a blur
/// with its parts; none for another tag.
#[verifier::external_body]
pub(crate) fn blurs(tag: &[u8], version: u8) -> (r: Vec<Option<FilterParts>>)
    ensures
        r@ == blurs_in(tag@, version),
{
    let Ok(Tag::PlaceObject(p)) = Reader::new(tag, version).read_tag() else { return vec![]; };
    p.filters.into_iter().flatten().map(|f| match f {
        swf::Filter::BlurFilter(f) => Some(FilterParts {
            blur_x: f.blur_x.get(), blur_y: f.blur_y.get(), flags: f.flags.bits(),
            ..Default::default()
        }),
        _ => None,
    }).collect()
}

/// Calls `swf::read::Reader::read_tag`: the filters of a placement in order, a glow
/// with its parts; none for another tag.
#[verifier::external_body]
pub(crate) fn glows(tag: &[u8], version: u8) -> (r: Vec<Option<FilterParts>>)
    ensures
        r@ == glows_in(tag@, version),
{
    let Ok(Tag::PlaceObject(p)) = Reader::new(tag, version).read_tag() else { return vec![]; };
    p.filters.into_iter().flatten().map(|f| match f {
        swf::Filter::GlowFilter(f) => Some(FilterParts {
            color: f.color.to_rgba(), blur_x: f.blur_x.get(), blur_y: f.blur_y.get(),
            strength: f.strength.get(), flags: f.flags.bits(), ..Default::default()
        }),
        _ => None,
    }).collect()
}

/// Calls `swf::read::Reader::read_tag`: the filters of a placement in order, a bevel
/// with its parts; none for another tag.
#[verifier::external_body]
pub(crate) fn bevels(tag: &[u8], version: u8) -> (r: Vec<Option<FilterParts>>)
    ensures
        r@ == bevels_in(tag@, version),
{
    let Ok(Tag::PlaceObject(p)) = Reader::new(tag, version).read_tag() else { return vec![]; };
    p.filters.into_iter().flatten().map(|f| match f {
        swf::Filter::BevelFilter(f) => Some(FilterParts {
            color: f.shadow_color.to_rgba(), second: f.highlight_color.to_rgba(), blur_x: f.blur_x.get(),
            blur_y: f.blur_y.get(), angle: f.angle.get(), distance: f.distance.get(),
            strength: f.strength.get(), flags: f.flags.bits(),
        }),
        _ => None,
    }).collect()
}

/// Calls `swf::read::Reader::read_tag`: the filters of a placement in order, a gradient glow
/// with its parts; none for another tag.
#[verifier::external_body]
pub(crate) fn gradient_glows(tag: &[u8], version: u8) -> (r: Vec<Option<GradientParts>>)
    ensures
        some_views(r@) == gradient_glows_in(tag@, version),
{
    let Ok(Tag::PlaceObject(p)) = Reader::new(tag, version).read_tag() else { return vec![]; };
    p.filters.into_iter().flatten().map(|f| match f {
        swf::Filter::GradientGlowFilter(f) => Some(GradientParts {
            colors: f.colors.iter().map(|g| g.color.to_rgba()).collect(),
            ratios: f.colors.iter().map(|g| g.ratio).collect(),
            blur_x: f.blur_x.get(), blur_y: f.blur_y.get(), angle: f.angle.get(),
            distance: f.distance.get(), strength: f.strength.get(), flags: f.flags.bits(),
        }),
        _ => None,
    }).collect()
}

/// Calls `swf::read::Reader::read_tag`: the filters of a placement in order, a gradient bevel
/// with its parts; none for another tag.
#[verifier::external_body]
pub(crate) fn gradient_bevels(tag: &[u8], version: u8) -> (r: Vec<Option<GradientParts>>)
    ensures
        some_views(r@) == gradient_bevels_in(tag@, version),
{
    let Ok(Tag::PlaceObject(p)) = Reader::new(tag, version).read_tag() else { return vec![]; };
    p.filters.into_iter().flatten().map(|f| match f {
        swf::Filter::GradientBevelFilter(f) => Some(GradientParts {
            colors: f.colors.iter().map(|g| g.color.to_rgba()).collect(),
            ratios: f.colors.iter().map(|g| g.ratio).collect(),
            blur_x: f.blur_x.get(), blur_y: f.blur_y.get(), angle: f.angle.get(),
            distance: f.distance.get(), strength: f.strength.get(), flags: f.flags.bits(),
        }),
        _ => None,
    }).collect()
}

/// Calls `swf::read::Reader::read_tag`: the filters of a placement in order, a color
/// matrix with its cells; none for another tag. A matrix has 20 cells.
#[verifier::external_body]
pub(crate) fn color_matrices(tag: &[u8], version: u8) -> (r: Vec<Option<Vec<F32Bits>>>)
    ensures
        some_views(r@) == color_matrices_in(tag@, version),
        forall|i: int| 0 <= i < r@.len() ==> ((#[trigger] r@[i]) matches Some(v) ==> v@.len() == 20),
{
    let Ok(Tag::PlaceObject(p)) = Reader::new(tag, version).read_tag() else { return vec![]; };
    p.filters.into_iter().flatten().map(|f| match f {
        swf::Filter::ColorMatrixFilter(f) => Some(f.matrix.iter().map(|v| v.to_bits()).collect()),
        _ => None,
    }).collect()
}

/// Calls `swf::read::Reader::read_tag`: a JPEG image, with its alpha channel where
/// the tag has one; `None` for another tag.
#[verifier::external_body]
pub(crate) fn jpeg(tag: &[u8], version: u8) -> (r: Option<Jpeg>)
    ensures
        match r {
            Some(j) => jpeg_in(tag@, version) == Some(j@),
            None => jpeg_in(tag@, version) is None,
        },
{
    match Reader::new(tag, version).read_tag().ok()? {
        Tag::DefineBitsJpeg2 { id, jpeg_data } => {
            Some(Jpeg { id, data: jpeg_data.to_vec(), alpha_data: vec![] })
        },
        Tag::DefineBitsJpeg3(j) => {
            Some(Jpeg { id: j.id, data: j.data.to_vec(), alpha_data: j.alpha_data.to_vec() })
        },
        _ => None,
    }
}

/// Calls `swf::read::Reader::read_tag`: a lossless image; `None` for another tag.
#[verifier::external_body]
pub(crate) fn lossless(tag: &[u8], version: u8) -> (r: Option<Lossless>)
    ensures
        match r {
            Some(l) => lossless_in(tag@, version) == Some(l@),
            None => lossless_in(tag@, version) is None,
        },
{
    let Tag::DefineBitsLossless(l) = Reader::new(tag, version).read_tag().ok()? else {
        return None;
    };
    let format = match l.format {
        swf::BitmapFormat::ColorMap8 { num_colors } => PixelFormat::ColorMap8 { num_colors },
        swf::BitmapFormat::Rgb15 => PixelFormat::Rgb15,
        swf::BitmapFormat::Rgb32 => PixelFormat::Rgb32,
    };
    let (width, height) = (l.width, l.height);
    Some(Lossless { version: l.version, id: l.id, format, width, height, data: l.data.into_owned() })
}

} // verus!
