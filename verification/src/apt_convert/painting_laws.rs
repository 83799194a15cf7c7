//! How the areas and lines of a shape are painted.
use super::geometry::{
    ends, fill_look, first_stop, line_look, styled, styled_as, Filled, Key, Segment,
    ShapeOutline,
};
use super::recovering;
use super::recovering_laws::{law_numbers, near};
use super::swf_read::{tables, FixedMatrix, ImagePaint};
use crate::apt::types::F32Bits;
use crate::apt_aux::ru::{Batch, Look};
use vstd::prelude::*;

verus! {

/// An area with an image that can be mapped shows that, repeated as the image is; any
/// other shows its color, and white where it has none.
pub proof fn law_area(
    color: Option<u32>,
    image: Option<ImagePaint>,
    matrix: Option<[F32Bits; 6]>,
)
    ensures
        match fill_look(color, image, matrix) {
            Look::Textured { color: c, bitmap_character_id, matrix: m, clipped } => {
                &&& c == 0xFFFF_FFFF
                &&& image matches Some(i) && bitmap_character_id == i.id && clipped == !i.repeating
                &&& matrix matches Some(x) && m == x@
            },
            Look::Solid { color: c } => {
                &&& image is None || matrix is None
                &&& color matches Some(x) ==> c == x
                &&& color is None ==> c == 0xFFFF_FFFF
            },
            Look::Line { .. } => false,
        },
{
}

proof fn lemma_pixels(v: i32)
    ensures
        near(recovering::pixels(v), v as int, 20),
{
    law_numbers(FixedMatrix { a: 0, b: 0, c: 0, d: 0, tx: v, ty: 0 });
}

/// A line has its color and its width in pixels of twenty twips; one whose style is not
/// there is black and a pixel wide.
pub proof fn law_line(width: Option<i32>, color: Option<u32>)
    ensures
        line_look(width, color) matches Look::Line { color: c, width: w } && {
            &&& width matches Some(x) ==> near(w, x as int, 20)
            &&& width is Some && color is Some ==> c == color->0
            &&& width is Some && color is None ==> c == 0xFFFF_FFFF
            &&& width is None ==> c == 0xFF00_0000 && w == 0x3F80_0000
        },
{
    if let Some(x) = width {
        lemma_pixels(x);
    }
}

/// A line runs through both ends of each of its segments, in pixels of twenty twips.
pub proof fn law_ends(v: Seq<Segment>, i: int)
    requires
        0 <= i < v.len(),
    ensures
        ends(v).len() == 2 * v.len(),
        near(ends(v)[2 * i].0, v[i].from.x as int, 20),
        near(ends(v)[2 * i].1, v[i].from.y as int, 20),
        near(ends(v)[2 * i + 1].0, v[i].to.x as int, 20),
        near(ends(v)[2 * i + 1].1, v[i].to.y as int, 20),
{
    lemma_pixels(v[i].from.x);
    lemma_pixels(v[i].from.y);
    lemma_pixels(v[i].to.x);
    lemma_pixels(v[i].to.y);
}

/// Styles are counted from one in the table that a key names; zero is no style. A gradient
/// stands for its first stop.
pub proof fn law_styles(v: Seq<Seq<Option<u32>>>, k: Key, stops: Seq<u32>)
    ensures
        styled(v, k) is Some <==> k.table < v.len() && 1 <= k.style <= v[k.table as int].len(),
        styled(v, k) matches Some(x) ==> x == v[k.table as int][k.style - 1],
        styled(v, k) is None ==> styled_as(v, k) is None,
        styled(v, k) matches Some(x) ==> styled_as(v, k) == x,
        stops.len() > 0 ==> first_stop(stops) == Some(stops[0]),
        stops.len() == 0 ==> first_stop(stops) is None,
{
}

/// Whether an area is drawn: it has a contour, and triangulating it gave triangles.
pub open spec fn is_drawn(s: ShapeOutline, filled: Seq<Filled>, i: int) -> bool {
    &&& s.outline.fills@[i].contours@.len() > 0
    &&& i < filled.len()
    &&& filled[i].vertices@.len() > 0
}

/// How many of the first `i` areas are drawn.
pub open spec fn drawn_before(s: ShapeOutline, filled: Seq<Filled>, i: int) -> int
    decreases i,
{
    if i <= 0 {
        0
    } else {
        drawn_before(s, filled, i - 1) + if is_drawn(s, filled, i - 1) {
            1int
        } else {
            0
        }
    }
}

/// Whether a batch is that of the `i`-th area.
pub open spec fn paints(b: Batch, s: ShapeOutline, filled: Seq<Filled>, i: int) -> bool {
    let key = s.outline.fills@[i].key;
    &&& b.vertices == filled[i].vertices@
    &&& b.style == fill_look(
        styled_as(tables(s.styles.fill_colors@), key),
        styled_as(tables(s.styles.fill_images@), key),
        filled[i].matrix,
    )
}

/// Every area that is drawn has a batch of its own triangles in its own style, in the
/// order of the areas, and nothing else has one.
pub proof fn law_areas(s: ShapeOutline, filled: Seq<Filled>, n: nat)
    ensures
        s.fill_batches(filled, n).len() == drawn_before(s, filled, n as int),
        forall|i: int|
            #![trigger is_drawn(s, filled, i)]
            0 <= i < n && is_drawn(s, filled, i) ==> 0 <= drawn_before(s, filled, i)
                < drawn_before(s, filled, n as int) && paints(
                s.fill_batches(filled, n)[drawn_before(s, filled, i)],
                s,
                filled,
                i,
            ),
    decreases n,
{
    if n > 0 {
        law_areas(s, filled, (n - 1) as nat);
        let before = s.fill_batches(filled, (n - 1) as nat);
        let v = s.fill_batches(filled, n);
        assert forall|i: int|
            #![trigger is_drawn(s, filled, i)]
            0 <= i < n && is_drawn(s, filled, i) implies {
            &&& 0 <= drawn_before(s, filled, i) < drawn_before(s, filled, n as int)
            &&& paints(v[drawn_before(s, filled, i)], s, filled, i)
        } by {
            if i < n - 1 {
                assert(v[drawn_before(s, filled, i)] == before[drawn_before(s, filled, i)]);
            }
        }
    }
}

} // verus!
