//! Parse a standard SWF into the APT model.
//!
//! This recovers the timeline structure (frames, placements, removals, labels and
//! actions), sprites, shape bounds, imports and exports. Shape *geometry* is
//! extracted separately as aux data (see [`super::geometry`]) since APT keeps
//! geometry outside the `.apt` blob.
use super::bytecode::swf_to_apt_actions;
use super::recovering::{self, Span, Tag};
use super::singles;
use super::swf_model as scene;
use super::swf_movie::{Asset, ClipHandler};
use super::swf_read::{
    self, FilterParts, FixedColors, FixedMatrix, GradientParts, PlaceHead, Placing, ShapeHead,
    Unpacked,
};
use super::{Error, ReadFault, Trouble};
use crate::apt::bytes;
use crate::apt::constfile::CONST_MAGIC;
use crate::apt::model;
use crate::apt::types::{
    Character, CharacterSlot, Control, EventAction, Export, F32Bits, Filter, Frame, Header, Import,
    Matrix, Morph, Movie, PackedCxForm, PlaceObject, PtrSize, Rect, Shape, Sprite,
};
use crate::apt::writing;
use crate::apt::AptFile;
use crate::apt_aux::ru::pack_color;
use crate::text;
use vstd::prelude::*;

verus! {

/// Options controlling the generated APT.
#[derive(Debug, Clone, Copy)]
pub struct SwfToAptOptions {
    pub ptr_size: PtrSize,
    pub decoupled: bool,
}

impl Default for SwfToAptOptions {
    fn default() -> (o: SwfToAptOptions)
        ensures
            o.ptr_size == PtrSize::Four,
            !o.decoupled,
    {
        SwfToAptOptions { ptr_size: PtrSize::Four, decoupled: false }
    }
}

pub(crate) fn bad_tag() -> (e: Error)
    ensures
        e@ == Trouble::SwfRead(ReadFault::BadTag),
{
    Error::SwfRead(ReadFault::BadTag)
}

fn u16_at(d: &[u8], pos: usize) -> (v: u16)
    requires
        pos + 2 <= d@.len(),
    ensures
        v == bytes::un_le(d@, pos as int, 2),
{
    proof {
        reveal_with_fuel(bytes::un_le, 3);
    }
    d[pos] as u16 + 0x100 * (d[pos + 1] as u16)
}

fn u32_at(d: &[u8], pos: usize) -> (v: u32)
    requires
        pos + 4 <= d@.len(),
    ensures
        v == bytes::un_le(d@, pos as int, 4),
{
    proof {
        reveal_with_fuel(bytes::un_le, 5);
    }
    d[pos] as u32 + 0x100 * (d[pos + 1] as u32) + 0x1_0000 * (d[pos + 2] as u32) + 0x100_0000 * (
    d[pos + 3] as u32)
}

/// What the tag at a place is.
pub open spec fn tag_of(d: Seq<u8>, s: Span) -> Tag {
    Tag {
        code: s.code,
        all: d.subrange(s.start as int, s.end as int),
        body: d.subrange(s.body as int, s.end as int),
    }
}

/// What the tags at these places are.
pub open spec fn tags_of(d: Seq<u8>, v: Seq<Span>) -> Seq<Tag> {
    Seq::new(v.len(), |i: int| tag_of(d, v[i]))
}

/// Whether a tag lies within `n` bytes, its body behind its head.
pub open spec fn in_order(s: Span, n: nat) -> bool {
    s.start < s.body <= s.end <= n
}

/// The tag at `pos`, where it ends within the data.
fn tag_at(d: &[u8], pos: usize) -> (r: Option<Span>)
    requires
        pos <= d@.len(),
    ensures
        match r {
            Some(s) => {
                &&& recovering::tag_at(d@, pos as int) == Some(
                    (s.code, s.body as int, s.end as int),
                )
                &&& s.start == pos
                &&& pos < s.body <= s.end <= d@.len()
            },
            None => match recovering::tag_at(d@, pos as int) {
                Some(t) => t.2 > d@.len(),
                None => true,
            },
        },
{
    let left: usize = d.len() - pos;
    if left < 2 {
        return None;
    }
    let v: u16 = u16_at(d, pos);
    let code: u16 = v / 64;
    if v % 64 < 63 {
        let n: usize = (v % 64) as usize;
        if n > left - 2 {
            return None;
        }
        Some(Span { code, start: pos, body: pos + 2, end: pos + 2 + n })
    } else {
        if left < 6 {
            return None;
        }
        let n: u32 = u32_at(d, pos + 2);
        if n as u64 > (left - 6) as u64 {
            return None;
        }
        Some(Span { code, start: pos, body: pos + 6, end: pos + 6 + n as usize })
    }
}

/// The tags up to the end tag.
pub(crate) fn read_tags(d: &[u8], version: u8) -> (r: Option<Vec<Span>>)
    ensures
        match r {
            Some(v) => {
                &&& recovering::tags(d@, version, 0) == Some(tags_of(d@, v@))
                &&& forall|i: int| 0 <= i < v@.len() ==> in_order(#[trigger] v@[i], d@.len())
            },
            None => recovering::tags(d@, version, 0) is None,
        },
{
    let mut out: Vec<Span> = Vec::new();
    let mut pos: usize = 0;
    let count: usize = d.len();
    let ghost all = recovering::tags(d@, version, 0);
    proof {
        if all is Some {
            assert(tags_of(d@, out@) + all->0 =~= all->0);
        }
    }
    loop
        invariant
            pos <= count,
            count == d@.len(),
            all == recovering::tags(d@, version, 0),
            all == match recovering::tags(d@, version, pos as int) {
                Some(rest) => Some(tags_of(d@, out@) + rest),
                None => None,
            },
            forall|i: int| 0 <= i < out@.len() ==> in_order(#[trigger] out@[i], d@.len()),
        decreases count - pos,
    {
        let s = match tag_at(d, pos) {
            Some(s) => s,
            None => {
                return None;
            },
        };
        let tag = vstd::slice::slice_subrange(d, s.start, s.end);
        if !swf_read::accepts(tag, version) {
            return None;
        }
        if s.code == recovering::TAG_END {
            assert(tags_of(d@, out@) + Seq::<Tag>::empty() =~= tags_of(d@, out@));
            return Some(out);
        }
        let ghost before = tags_of(d@, out@);
        out.push(s);
        proof {
            let t = tag_of(d@, s);
            assert(tags_of(d@, out@) =~= before.push(t));
            let rest = recovering::tags(d@, version, s.end as int);
            if rest is Some {
                assert(before + (seq![t] + rest->0) =~= before.push(t) + rest->0);
            }
        }
        pos = s.end;
    }
}

fn matrix_from_swf(m: FixedMatrix) -> (r: Matrix)
    ensures
        r == recovering::matrix(m),
{
    Matrix {
        a: singles::from_signed(m.a, 0x1_0000),
        b: singles::from_signed(m.b, 0x1_0000),
        c: singles::from_signed(m.c, 0x1_0000),
        d: singles::from_signed(m.d, 0x1_0000),
        tx: pixels(m.tx),
        ty: pixels(m.ty),
    }
}

/// Pixels from twips, which are twentieths.
pub fn pixels(twips: i32) -> (r: F32Bits)
    ensures
        r == recovering::pixels(twips),
{
    singles::from_signed(twips, 20)
}

/// A factor in 1/256 as a byte, cut to a whole number and held within a byte: 254
/// stands for one.
pub fn scale_byte(v: i16) -> (b: u8)
    ensures
        b == recovering::scale_byte(v),
{
    if v <= 0 {
        0
    } else if v > 258 {
        255
    } else {
        (v as u32 * 254 / 256) as u8
    }
}

/// The color transform of a placement, one byte per channel.
pub fn cxform_from_swf(c: FixedColors) -> (r: PackedCxForm)
    ensures
        r == recovering::cxform(c),
{
    PackedCxForm {
        scale: pack_color(
            scale_byte(c.b_multiply),
            scale_byte(c.g_multiply),
            scale_byte(c.r_multiply),
            scale_byte(c.a_multiply),
        ),
        bias: pack_color(c.b_add as u8, c.g_add as u8, c.r_add as u8, c.a_add as u8),
    }
}

/// The filters of a placement, by their kinds.
struct Filters {
    shadows: Vec<Option<FilterParts>>,
    blurs: Vec<Option<FilterParts>>,
    glows: Vec<Option<FilterParts>>,
    bevels: Vec<Option<FilterParts>>,
    gradient_glows: Vec<Option<GradientParts>>,
    gradient_bevels: Vec<Option<GradientParts>>,
    color_matrices: Vec<Option<Vec<F32Bits>>>,
}

impl View for Filters {
    type V = recovering::Filters;

    closed spec fn view(&self) -> recovering::Filters {
        recovering::Filters {
            shadows: self.shadows@,
            blurs: self.blurs@,
            glows: self.glows@,
            bevels: self.bevels@,
            gradient_glows: swf_read::some_views(self.gradient_glows@),
            gradient_bevels: swf_read::some_views(self.gradient_bevels@),
            color_matrices: swf_read::some_views(self.color_matrices@),
        }
    }
}

impl Filters {
    /// Whether the color matrices have all their cells.
    spec fn whole(self) -> bool {
        forall|i: int|
            0 <= i < self.color_matrices@.len() ==> ((#[trigger] self.color_matrices@[i]) matches Some(
                v,
            ) ==> v@.len() == 20)
    }
}

fn part_at(v: &Vec<Option<FilterParts>>, i: usize) -> (r: Option<FilterParts>)
    ensures
        r == recovering::entry(v@, i as int),
{
    if i < v.len() {
        v[i]
    } else {
        None
    }
}

fn gradient_at(v: &Vec<Option<GradientParts>>, i: usize, is_bevel: bool) -> (r: Option<Filter>)
    ensures
        match recovering::entry(swf_read::some_views(v@), i as int) {
            Some(g) => r matches Some(f) && f@ == recovering::gradient(g, is_bevel),
            None => r is None,
        },
{
    if i >= v.len() {
        return None;
    }
    match &v[i] {
        Some(g) => {
            let ratios = g.ratios.clone();
            assert(ratios@ =~= g.ratios@);
            let colors = g.colors.clone();
            assert(colors@ =~= g.colors@);
            Some(
                Filter::GradientGlow {
                    is_bevel,
                    colors,
                    ratios,
                    blur_x: g.blur_x as u32,
                    blur_y: g.blur_y as u32,
                    angle: g.angle as u32,
                    distance: g.distance as u32,
                    strength: g.strength as u16,
                    flags: g.flags as u16,
                },
            )
        },
        None => None,
    }
}

fn twenty(v: &Vec<F32Bits>) -> (a: [F32Bits; 20])
    requires
        v@.len() == 20,
    ensures
        a@ == v@,
{
    let a = [
        v[0],
        v[1],
        v[2],
        v[3],
        v[4],
        v[5],
        v[6],
        v[7],
        v[8],
        v[9],
        v[10],
        v[11],
        v[12],
        v[13],
        v[14],
        v[15],
        v[16],
        v[17],
        v[18],
        v[19],
    ];
    assert(a@ =~= v@);
    a
}

fn matrix_filter_at(v: &Vec<Option<Vec<F32Bits>>>, i: usize) -> (r: Option<Filter>)
    requires
        forall|i: int| 0 <= i < v@.len() ==> ((#[trigger] v@[i]) matches Some(c) ==> c@.len() == 20),
    ensures
        match recovering::entry(swf_read::some_views(v@), i as int) {
            Some(c) => r matches Some(f) && f@ == (model::Filter::ColorMatrix { values: c }),
            None => r is None,
        },
{
    if i >= v.len() {
        return None;
    }
    match &v[i] {
        Some(c) => Some(Filter::ColorMatrix { values: twenty(c) }),
        None => None,
    }
}

/// The `i`-th filter; there is none where the kind has no counterpart.
fn filter_at(f: &Filters, i: usize) -> (r: Option<Filter>)
    requires
        f.whole(),
    ensures
        match r {
            Some(x) => recovering::filter_at(f@, i as int) == Some(x@),
            None => recovering::filter_at(f@, i as int) is None,
        },
{
    if let Some(p) = part_at(&f.shadows, i) {
        return Some(
            Filter::DropShadow {
                color: p.color,
                blur_x: p.blur_x as u32,
                blur_y: p.blur_y as u32,
                angle: p.angle as u32,
                distance: p.distance as u32,
                strength: p.strength as u16,
                flags: p.flags as u16,
            },
        );
    }
    if let Some(p) = part_at(&f.blurs, i) {
        return Some(
            Filter::Blur {
                blur_x: p.blur_x as u32,
                blur_y: p.blur_y as u32,
                flags: p.flags as u16,
            },
        );
    }
    if let Some(p) = part_at(&f.glows, i) {
        return Some(
            Filter::Glow {
                color: p.color,
                blur_x: p.blur_x as u32,
                blur_y: p.blur_y as u32,
                strength: p.strength as u16,
                flags: p.flags as u16,
            },
        );
    }
    if let Some(p) = part_at(&f.bevels, i) {
        return Some(
            Filter::Bevel {
                highlight_color: p.second,
                shadow_color: p.color,
                blur_x: p.blur_x as u32,
                blur_y: p.blur_y as u32,
                angle: p.angle as u32,
                distance: p.distance as u32,
                strength: p.strength as u16,
                flags: p.flags as u16,
            },
        );
    }
    let g = gradient_at(&f.gradient_glows, i, false);
    if g.is_some() {
        return g;
    }
    let g = gradient_at(&f.gradient_bevels, i, true);
    if g.is_some() {
        return g;
    }
    matrix_filter_at(&f.color_matrices, i)
}

fn build_filters(f: &Filters) -> (out: Vec<Filter>)
    requires
        f.whole(),
    ensures
        model::views(out@) == recovering::filters(f@, f@.shadows.len()),
{
    let mut out: Vec<Filter> = Vec::new();
    let mut i: usize = 0;
    assert(model::views(out@) =~= recovering::filters(f@, 0));
    while i < f.shadows.len()
        invariant
            i <= f.shadows@.len(),
            f.whole(),
            model::views(out@) == recovering::filters(f@, i as nat),
        decreases f.shadows@.len() - i,
    {
        let ghost seen = out@;
        match filter_at(f, i) {
            Some(x) => {
                out.push(x);
                assert(model::views(out@) =~= model::views(seen).push(x@));
            },
            None => {},
        }
        i = i + 1;
    }
    out
}

fn read_filters(tag: &[u8], version: u8) -> (f: Filters)
    ensures
        f@ == recovering::filters_in(tag@, version),
        f.whole(),
{
    Filters {
        shadows: swf_read::shadows(tag, version),
        blurs: swf_read::blurs(tag, version),
        glows: swf_read::glows(tag, version),
        bevels: swf_read::bevels(tag, version),
        gradient_glows: swf_read::gradient_glows(tag, version),
        gradient_bevels: swf_read::gradient_bevels(tag, version),
        color_matrices: swf_read::color_matrices(tag, version),
    }
}

proof fn lemma_handlers_fault(v: Seq<scene::ClipHandler>, i: nat, n: nat)
    requires
        i <= n,
        recovering::handlers_fault(v, i) is Some,
    ensures
        recovering::handlers_fault(v, n) == recovering::handlers_fault(v, i),
    decreases n - i,
{
    if i < n {
        lemma_handlers_fault(v, i, (n - 1) as nat);
    }
}

fn build_handlers(v: &Vec<ClipHandler>) -> (r: Result<Vec<EventAction>, Error>)
    ensures
        ({
            let w = model::views(v@);
            match r {
                Ok(out) => recovering::handlers_fault(w, w.len()) is None && model::views(out@)
                    == recovering::handlers(w),
                Err(e) => recovering::handlers_fault(w, w.len()) == Some(e@),
            }
        }),
{
    let ghost w = model::views(v@);
    let mut out: Vec<EventAction> = Vec::new();
    let mut i: usize = 0;
    while i < v.len()
        invariant
            i <= v@.len(),
            w == model::views(v@),
            recovering::handlers_fault(w, i as nat) is None,
            out@.len() == i,
            forall|k: int| 0 <= k < i ==> (#[trigger] out@[k])@ == recovering::handler(w[k]),
        decreases v@.len() - i,
    {
        assert(w[i as int] == v@[i as int]@);
        match swf_to_apt_actions(v[i].code.as_slice()) {
            Ok(actions) => {
                let key_code: i32 = match v[i].key_code {
                    Some(k) => k as i32,
                    None => 0,
                };
                out.push(EventAction { triggers: v[i].events as i32, key_code, actions });
            },
            Err(e) => {
                proof {
                    lemma_handlers_fault(w, (i + 1) as nat, w.len());
                }
                return Err(e);
            },
        }
        i = i + 1;
    }
    assert(model::views(out@) =~= recovering::handlers(w));
    Ok(out)
}

/// What a placement holds.
struct Placed {
    head: PlaceHead,
    matrix: Option<FixedMatrix>,
    colors: Option<FixedColors>,
    clips: Option<Vec<ClipHandler>>,
    filters: Filters,
}

impl View for Placed {
    type V = recovering::Placed;

    closed spec fn view(&self) -> recovering::Placed {
        recovering::Placed {
            core: self.head@,
            matrix: self.matrix,
            colors: self.colors,
            clips: match self.clips {
                Some(v) => Some(model::views(v@)),
                None => None,
            },
            filters: self.filters@,
        }
    }
}

fn convert_place(p: Placed) -> (r: Result<PlaceObject, Error>)
    requires
        p.filters.whole(),
    ensures
        ({
            let fault = match p@.clips {
                Some(v) => recovering::handlers_fault(v, v.len()),
                None => None,
            };
            match r {
                Ok(x) => fault is None && x@ == recovering::place_object(p@),
                Err(e) => fault == Some(e@),
            }
        }),
{
    let clip_actions = match &p.clips {
        Some(v) => Some(build_handlers(v)?),
        None => None,
    };
    let (is_move, character_id) = match p.head.action {
        Placing::Place(id) => (false, Some(id as i32)),
        Placing::Modify => (true, None),
        Placing::Replace(id) => (true, Some(id as i32)),
        Placing::Nothing => (false, None),
    };
    let matrix = match p.matrix {
        Some(m) => Some(matrix_from_swf(m)),
        None => None,
    };
    let cxform = match p.colors {
        Some(c) => Some(cxform_from_swf(c)),
        None => None,
    };
    let ratio = match p.head.ratio {
        Some(r) => Some(singles::from_signed(r as i32, 65535)),
        None => None,
    };
    let clip_depth = match p.head.clip_depth {
        Some(d) => Some(d as i32),
        None => None,
    };
    let blend_mode = match p.head.blend_mode {
        Some(b) => Some(b as i32),
        None => None,
    };
    let filters = build_filters(&p.filters);
    Ok(
        PlaceObject {
            is_move,
            depth: p.head.depth as i32,
            character_id,
            matrix,
            cxform,
            ratio,
            name: p.head.name,
            clip_depth,
            clip_actions,
            blend_mode,
            filters,
        },
    )
}

fn read_placement(tag: &[u8], version: u8) -> (r: Result<PlaceObject, Error>)
    ensures
        match r {
            Ok(p) => recovering::placement(tag@, version) == Ok::<model::PlaceObject, Trouble>(p@),
            Err(e) => recovering::placement(tag@, version) == Err::<model::PlaceObject, Trouble>(
                e@,
            ),
        },
{
    match swf_read::place_head(tag, version) {
        None => Err(bad_tag()),
        Some(head) => {
            let p = Placed {
                head,
                matrix: swf_read::place_matrix(tag, version),
                colors: swf_read::place_colors(tag, version),
                clips: swf_read::place_clips(tag, version),
                filters: read_filters(tag, version),
            };
            convert_place(p)
        },
    }
}

fn is_place(code: u16) -> (b: bool)
    ensures
        b == recovering::is_place(code),
{
    code == recovering::TAG_PLACE_OBJECT || code == recovering::TAG_PLACE_OBJECT2 || code
        == recovering::TAG_PLACE_OBJECT3 || code == recovering::TAG_PLACE_OBJECT4
}

/// The control of a tag that can stand in any timeline; none where the tag has none.
fn timeline_control(d: &[u8], s: Span, version: u8) -> (r: Result<Option<Control>, Error>)
    requires
        in_order(s, d@.len()),
    ensures
        ({
            let want = recovering::timeline_control(tag_of(d@, s), version);
            match r {
                Ok(Some(c)) => want == Ok::<Option<model::Control>, Trouble>(Some(c@)),
                Ok(None) => want == Ok::<Option<model::Control>, Trouble>(None),
                Err(e) => want == Err::<Option<model::Control>, Trouble>(e@),
            }
        }),
{
    let tag = vstd::slice::slice_subrange(d, s.start, s.end);
    let body = vstd::slice::slice_subrange(d, s.body, s.end);
    if is_place(s.code) {
        let p = read_placement(tag, version)?;
        Ok(Some(Control::PlaceObject(p)))
    } else if s.code == recovering::TAG_REMOVE_OBJECT || s.code == recovering::TAG_REMOVE_OBJECT2 {
        let at: usize = if s.code == recovering::TAG_REMOVE_OBJECT {
            2
        } else {
            0
        };
        if body.len() < at + 2 {
            return Err(bad_tag());
        }
        let depth: i32 = u16_at(body, at) as i32;
        Ok(Some(Control::RemoveObject { depth }))
    } else if s.code == recovering::TAG_DO_ACTION {
        let actions = swf_to_apt_actions(body)?;
        Ok(Some(Control::Action(actions)))
    } else if s.code == recovering::TAG_FRAME_LABEL {
        match swf_read::label(tag, version) {
            Some(label) => Ok(Some(Control::FrameLabel(label))),
            None => Err(bad_tag()),
        }
    } else {
        Ok(None)
    }
}

/// The frames of a timeline, and the frame that is not shown yet.
struct Timeline {
    frames: Vec<Frame>,
    pending: Frame,
}

impl View for Timeline {
    type V = recovering::Timeline;

    closed spec fn view(&self) -> recovering::Timeline {
        recovering::Timeline {
            frames: model::views(self.frames@),
            pending: model::views(self.pending.controls@),
        }
    }
}

impl Timeline {
    fn new() -> (t: Timeline)
        ensures
            t@ == recovering::Timeline::empty(),
    {
        let t = Timeline { frames: Vec::new(), pending: Frame { controls: Vec::new() } };
        assert(t@.frames =~= Seq::<model::Frame>::empty());
        assert(t@.pending =~= Seq::<model::Control>::empty());
        t
    }

    fn show(&mut self)
        ensures
            final(self)@ == old(self)@.show(),
    {
        let ghost before = self@;
        let mut shown = Frame { controls: Vec::new() };
        std::mem::swap(&mut shown, &mut self.pending);
        let ghost seen = self.frames@;
        self.frames.push(shown);
        proof {
            assert(model::views(self.frames@) =~= model::views(seen).push(shown@));
            assert(self@.pending =~= Seq::<model::Control>::empty());
            assert(self@ =~= before.show());
        }
    }

    fn put(&mut self, c: Control)
        ensures
            final(self)@ == old(self)@.put(c@),
    {
        let ghost before = self@;
        let ghost seen = self.pending.controls@;
        self.pending.controls.push(c);
        proof {
            assert(model::views(self.pending.controls@) =~= model::views(seen).push(c@));
            assert(self@ =~= before.put(c@));
        }
    }

    fn finish(self) -> (frames: Vec<Frame>)
        ensures
            model::views(frames@) == self@.all(),
    {
        let mut t = self;
        if t.pending.controls.len() > 0 {
            t.show();
        }
        t.frames
    }
}

fn convert_sprite(body: &[u8], version: u8) -> (r: Result<Sprite, Error>)
    ensures
        match r {
            Ok(s) => recovering::sprite(body@, version) == Ok::<Seq<model::Frame>, Trouble>(
                model::views(s.frames@),
            ),
            Err(e) => recovering::sprite(body@, version) == Err::<Seq<model::Frame>, Trouble>(e@),
        },
        r is Ok ==> body@.len() >= 4,
{
    if body.len() < 4 {
        return Err(bad_tag());
    }
    let d = vstd::slice::slice_subrange(body, 4, body.len());
    assert(d@ =~= body@.skip(4));
    let spans = match read_tags(d, version) {
        Some(v) => v,
        None => {
            return Err(bad_tag());
        },
    };
    let ghost v = tags_of(d@, spans@);
    let mut t = Timeline::new();
    let mut i: usize = 0;
    while i < spans.len()
        invariant
            i <= spans@.len(),
            v == tags_of(d@, spans@),
            d@ == body@.skip(4),
            body@.len() >= 4,
            recovering::tags(d@, version, 0) == Some(v),
            forall|k: int| 0 <= k < spans@.len() ==> in_order(#[trigger] spans@[k], d@.len()),
            recovering::sprite_timeline(v, version, i as nat) == Ok::<
                recovering::Timeline,
                Trouble,
            >(t@),
        decreases spans@.len() - i,
    {
        let s = spans[i];
        assert(v[i as int] == tag_of(d@, s));
        assert(in_order(spans@[i as int], d@.len()));
        if s.code == recovering::TAG_SHOW_FRAME {
            t.show();
        } else {
            match timeline_control(d, s, version) {
                Ok(Some(c)) => t.put(c),
                Ok(None) => {},
                Err(e) => {
                    proof {
                        lemma_sprite_err(v, version, (i + 1) as nat, v.len());
                    }
                    return Err(e);
                },
            }
        }
        i = i + 1;
    }
    Ok(Sprite { frames: t.finish() })
}

proof fn lemma_sprite_err(v: Seq<Tag>, version: u8, i: nat, n: nat)
    requires
        i <= n,
        recovering::sprite_timeline(v, version, i) is Err,
    ensures
        recovering::sprite_timeline(v, version, n) == recovering::sprite_timeline(v, version, i),
    decreases n - i,
{
    if i < n {
        lemma_sprite_err(v, version, i, (n - 1) as nat);
    }
}

/// A movie being recovered.
struct Draft {
    timeline: Timeline,
    slots: Vec<CharacterSlot>,
    imports: Vec<Import>,
    exports: Vec<Export>,
}

impl View for Draft {
    type V = recovering::Draft;

    closed spec fn view(&self) -> recovering::Draft {
        recovering::Draft {
            timeline: self.timeline@,
            slots: model::views(self.slots@),
            imports: model::views(self.imports@),
            exports: model::views(self.exports@),
        }
    }
}

impl Draft {
    fn new() -> (d: Draft)
        ensures
            d@ == recovering::Draft::start(),
    {
        let mut slots: Vec<CharacterSlot> = Vec::new();
        slots.push(CharacterSlot::Root);
        let d = Draft {
            timeline: Timeline::new(),
            slots,
            imports: Vec::new(),
            exports: Vec::new(),
        };
        proof {
            assert(d@.slots =~= seq![model::CharacterSlot::Root]);
            assert(d@.imports =~= Seq::<model::Import>::empty());
            assert(d@.exports =~= Seq::<model::Export>::empty());
        }
        d
    }

    fn reserve(&mut self, id: u16)
        ensures
            final(self)@ == old(self)@.reserve(id),
            final(self).slots@.len() > id,
    {
        let ghost before = self@;
        while self.slots.len() <= id as usize
            invariant
                self@.timeline == before.timeline,
                self@.imports == before.imports,
                self@.exports == before.exports,
                self.slots@.len() >= before.slots.len(),
                self.slots@.len() <= id + 1 || self.slots@.len() == before.slots.len(),
                forall|i: int|
                    0 <= i < self.slots@.len() ==> (#[trigger] self.slots@[i])@
                        == recovering::reserved(before.slots, id)[i],
            decreases id + 1 - self.slots@.len(),
        {
            self.slots.push(CharacterSlot::Empty);
        }
        assert(self@.slots =~= recovering::reserved(before.slots, id));
    }

    fn define(&mut self, id: u16, c: Character)
        ensures
            final(self)@ == old(self)@.define(id, c@),
    {
        if id == 0 {
            return;
        }
        let ghost before = self@;
        self.reserve(id);
        let ghost seen = self@.slots;
        self.slots.set(id as usize, CharacterSlot::Character(c));
        assert(self@.slots =~= seen.update(
            id as int,
            model::CharacterSlot::Character(c@),
        ));
    }

    fn put(&mut self, c: Control)
        ensures
            final(self)@ == old(self)@.put(c@),
    {
        self.timeline.put(c);
    }

    fn add_exports(&mut self, v: &Vec<Asset>)
        ensures
            final(self)@ == (recovering::Draft {
                exports: old(self)@.exports + recovering::exported(model::views(v@)),
                ..old(self)@
            }),
    {
        let ghost before = self@;
        let ghost all = recovering::exported(model::views(v@));
        let mut i: usize = 0;
        assert(before.exports + all.take(0) =~= before.exports);
        while i < v.len()
            invariant
                i <= v@.len(),
                all == recovering::exported(model::views(v@)),
                self@.timeline == before.timeline,
                self@.slots == before.slots,
                self@.imports == before.imports,
                self@.exports == before.exports + all.take(i as int),
            decreases v@.len() - i,
        {
            let ghost seen = self.exports@;
            let e = Export { name: v[i].name.clone(), character_id: v[i].id as u32 };
            self.exports.push(e);
            proof {
                assert(e@ == all[i as int]);
                assert(model::views(self.exports@) =~= model::views(seen).push(e@));
                assert((before.exports + all.take(i as int)).push(e@) =~= before.exports + all.take(
                    i + 1,
                ));
            }
            i = i + 1;
        }
        assert(all.take(i as int) =~= all);
    }

    fn add_imports(&mut self, url: &String, v: &Vec<Asset>)
        ensures
            final(self)@ == recovering::imported(
                old(self)@,
                url@,
                model::views(v@),
                v@.len(),
            ),
    {
        let ghost before = self@;
        let ghost w = model::views(v@);
        let mut i: usize = 0;
        while i < v.len()
            invariant
                i <= v@.len(),
                w == model::views(v@),
                self@ == recovering::imported(before, url@, w, i as nat),
            decreases v@.len() - i,
        {
            assert(w[i as int] == v@[i as int]@);
            self.reserve(v[i].id);
            let ghost seen = self.imports@;
            let import = Import {
                movie: movie_name(url),
                name: v[i].name.clone(),
                character_id: v[i].id as u32,
            };
            self.imports.push(import);
            proof {
                assert(model::views(self.imports@) =~= model::views(seen).push(import@));
                assert(self@ =~= recovering::imported(before, url@, w, (i + 1) as nat));
            }
            i = i + 1;
        }
    }
}

/// The name of the movie that a file holds: the file without the extension.
fn movie_name(url: &String) -> (name: String)
    ensures
        name@ == recovering::movie_name(url@),
{
    let v = text::to_chars(url.as_str());
    let n: usize = v.len();
    if n >= 4 && v[n - 4] == '.' && v[n - 3] == 's' && v[n - 2] == 'w' && v[n - 1] == 'f' {
        assert(url@.skip(n - 4) =~= seq!['.', 's', 'w', 'f']);
        assert(url@.subrange(0, n - 4) =~= url@.take(n - 4));
        return text::from_chars(&v, 0, n - 4);
    }
    proof {
        if n >= 4 {
            let t = url@.skip(n - 4);
            let w = seq!['.', 's', 'w', 'f'];
            assert(t[0] == v@[n - 4] && t[1] == v@[n - 3] && t[2] == v@[n - 2] && t[3] == v@[n
                - 1]);
            assert(w[0] == '.' && w[1] == 's' && w[2] == 'w' && w[3] == 'f');
        }
    }
    url.clone()
}

fn is_blank(code: u16) -> (b: bool)
    ensures
        b == recovering::is_blank(code),
{
    code == recovering::TAG_DEFINE_BUTTON || code == recovering::TAG_DEFINE_BUTTON2 || code
        == recovering::TAG_DEFINE_TEXT || code == recovering::TAG_DEFINE_TEXT2 || code
        == recovering::TAG_DEFINE_EDIT_TEXT || code == recovering::TAG_DEFINE_FONT || code
        == recovering::TAG_DEFINE_FONT2 || code == recovering::TAG_DEFINE_FONT3 || code
        == recovering::TAG_DEFINE_FONT4
}

/// Whether a tag defines a shape.
pub fn is_shape(code: u16) -> (b: bool)
    ensures
        b == recovering::is_shape(code),
{
    code == recovering::TAG_DEFINE_SHAPE || code == recovering::TAG_DEFINE_SHAPE2 || code
        == recovering::TAG_DEFINE_SHAPE3 || code == recovering::TAG_DEFINE_SHAPE4
}

fn convert_shape(h: ShapeHead) -> (c: Character)
    ensures
        c@ == recovering::shape(h),
{
    Character::Shape(
        Shape {
            bounds: Rect {
                left: pixels(h.x_min),
                top: pixels(h.y_min),
                right: pixels(h.x_max),
                bottom: pixels(h.y_max),
            },
            bitmap_character_id: None,
        },
    )
}

/// What one tag adds to a movie.
fn take_tag(draft: &mut Draft, d: &[u8], s: Span, version: u8) -> (r: Result<(), Error>)
    requires
        in_order(s, d@.len()),
    ensures
        ({
            let want = recovering::step(old(draft)@, tag_of(d@, s), version);
            match r {
                Ok(_) => want == Ok::<recovering::Draft, Trouble>(final(draft)@),
                Err(e) => want == Err::<recovering::Draft, Trouble>(e@),
            }
        }),
{
    reveal(recovering::step);
    let tag = vstd::slice::slice_subrange(d, s.start, s.end);
    let body = vstd::slice::slice_subrange(d, s.body, s.end);
    if s.code == recovering::TAG_SHOW_FRAME {
        draft.timeline.show();
    } else if s.code == recovering::TAG_DEFINE_SPRITE {
        let sprite = convert_sprite(body, version)?;
        draft.define(u16_at(body, 0), Character::Sprite(sprite));
    } else if is_shape(s.code) {
        match swf_read::shape_head(tag, version) {
            Some(h) => draft.define(h.id, convert_shape(h)),
            None => {
                return Err(bad_tag());
            },
        }
    } else if s.code == recovering::TAG_DEFINE_MORPH || s.code == recovering::TAG_DEFINE_MORPH2 {
        if body.len() < 2 {
            return Err(bad_tag());
        }
        draft.define(
            u16_at(body, 0),
            Character::Morph(Morph { start_character_id: 0, end_character_id: 0 }),
        );
    } else if is_blank(s.code) {
        if body.len() < 2 {
            return Err(bad_tag());
        }
        draft.reserve(u16_at(body, 0));
    } else if s.code == recovering::TAG_EXPORT_ASSETS {
        match swf_read::exports(tag, version) {
            Some(v) => draft.add_exports(&v),
            None => {
                return Err(bad_tag());
            },
        }
    } else if s.code == recovering::TAG_IMPORT_ASSETS || s.code
        == recovering::TAG_IMPORT_ASSETS2 {
        match swf_read::imports(tag, version) {
            Some((url, v)) => draft.add_imports(&url, &v),
            None => {
                return Err(bad_tag());
            },
        }
    } else if s.code == recovering::TAG_BACKGROUND_COLOR {
        if body.len() < 3 {
            return Err(bad_tag());
        }
        draft.put(Control::BackgroundColor(pack_color(body[2], body[1], body[0], 255)));
    } else if s.code == recovering::TAG_DO_INIT_ACTION {
        if body.len() < 2 {
            return Err(bad_tag());
        }
        let rest = vstd::slice::slice_subrange(body, 2, body.len());
        assert(rest@ =~= body@.skip(2));
        let actions = swf_to_apt_actions(rest)?;
        let sprite_id: i32 = u16_at(body, 0) as i32;
        draft.put(Control::InitAction { sprite_id, actions });
    } else {
        match timeline_control(d, s, version) {
            Ok(Some(c)) => draft.put(c),
            Ok(None) => {},
            Err(e) => {
                return Err(e);
            },
        }
    }
    Ok(())
}

proof fn lemma_steps_err(v: Seq<Tag>, version: u8, i: nat, n: nat)
    requires
        i <= n,
        recovering::steps(v, version, i) is Err,
    ensures
        recovering::steps(v, version, n) == recovering::steps(v, version, i),
    decreases n - i,
{
    if i < n {
        lemma_steps_err(v, version, i, (n - 1) as nat);
    }
}

fn whole_pixels(low: i32, high: i32) -> (r: u32)
    ensures
        r == recovering::whole_pixels(high - low),
{
    let twips: i64 = high as i64 - low as i64;
    if twips <= 0 {
        0
    } else {
        ((twips + 10) as u64 / 20) as u32
    }
}

fn frame_time(rate: i16) -> (ms: u32)
    ensures
        ms == recovering::frame_time(rate),
{
    if rate > 0 {
        (512_000 + rate as u32) / (2 * rate as u32)
    } else {
        33
    }
}

/// The long form of the header tag.
fn synth_tag(options: SwfToAptOptions, version: u8) -> (t: [u8; 16])
    ensures
        t@ == writing::long_tag(options.ptr_size, options.decoupled, version),
{
    let t: [u8; 16] = [
        0x41,
        0x70,
        0x74,
        0x20,
        0x44,
        0x61,
        0x74,
        0x61,
        0x3A,
        if options.decoupled {
            0x31
        } else {
            0x30
        },
        0x3A,
        0x30 + version % 10,
        0x3A,
        match options.ptr_size {
            PtrSize::Four => 0x34,
            PtrSize::Eight => 0x38,
        },
        0,
        0,
    ];
    assert(t@ =~= writing::long_tag(options.ptr_size, options.decoupled, version));
    t
}

/// The APT movie of a SWF file with these contents.
pub fn recover(u: &Unpacked, options: SwfToAptOptions) -> (r: Result<AptFile, Error>)
    ensures
        match r {
            Ok(f) => recovering::file(u@, options.ptr_size, options.decoupled) == Ok::<
                model::AptFile,
                Trouble,
            >(f@),
            Err(e) => recovering::file(u@, options.ptr_size, options.decoupled) == Err::<
                model::AptFile,
                Trouble,
            >(e@),
        },
{
    let d = u.tags.as_slice();
    let version: u8 = u.version;
    let spans = match read_tags(d, version) {
        Some(v) => v,
        None => {
            return Err(bad_tag());
        },
    };
    let ghost v = tags_of(d@, spans@);
    let mut draft = Draft::new();
    let mut i: usize = 0;
    while i < spans.len()
        invariant
            i <= spans@.len(),
            v == tags_of(d@, spans@),
            d@ == u.tags@,
            version == u.version,
            recovering::tags(d@, version, 0) == Some(v),
            forall|k: int| 0 <= k < spans@.len() ==> in_order(#[trigger] spans@[k], d@.len()),
            recovering::steps(v, version, i as nat) == Ok::<recovering::Draft, Trouble>(draft@),
        decreases spans@.len() - i,
    {
        let s = spans[i];
        assert(v[i as int] == tag_of(d@, s));
        assert(in_order(spans@[i as int], d@.len()));
        match take_tag(&mut draft, d, s, version) {
            Ok(_) => {},
            Err(e) => {
                proof {
                    lemma_steps_err(v, version, (i + 1) as nat, v.len());
                }
                return Err(e);
            },
        }
        i = i + 1;
    }
    let ghost whole = draft@;
    let movie = Movie {
        frames: draft.timeline.finish(),
        characters: draft.slots,
        width: whole_pixels(u.x_min, u.x_max),
        height: whole_pixels(u.y_min, u.y_max),
        ms_per_frame: frame_time(u.frame_rate),
        imports: draft.imports,
        exports: draft.exports,
    };
    assert(movie@ =~= recovering::movie(u@, whole));
    Ok(
        AptFile {
            header: Header {
                decoupled: options.decoupled,
                swf_version: version,
                ptr_size: options.ptr_size,
                raw_tag: synth_tag(options, version),
            },
            const_magic: CONST_MAGIC,
            movie,
        },
    )
}

/// Parse SWF bytes into an APT movie.
pub fn swf_to_apt(swf_data: &[u8], options: SwfToAptOptions) -> (r: Result<AptFile, Error>)
    ensures
        match r {
            Ok(f) => recovering::apt_file(swf_data@, options.ptr_size, options.decoupled) == Ok::<
                model::AptFile,
                Trouble,
            >(f@),
            Err(e) => recovering::apt_file(swf_data@, options.ptr_size, options.decoupled) == Err::<
                model::AptFile,
                Trouble,
            >(e@),
        },
{
    match swf_read::decompress(swf_data) {
        Some(u) => recover(&u, options),
        None => Err(Error::SwfRead(ReadFault::BadFile)),
    }
}

} // verus!
