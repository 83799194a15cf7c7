//! Textures referenced by shape geometry.
//!
//! Shapes reference a *bitmap character ID*; the `.dat` map ([`super::dat`])
//! resolves that to a *texture ID*, which a [`TextureSource`] turns into pixels.
//! Games differ in where they keep the image files, so the lookup is behind the
//! trait; [`FileTextureSource`] knows the conventions used by the classic games:
//!
//! - `art/Textures/apt_<base>_<texid>.<ext>` - BFME / BFME2 (shared texture dir)
//! - `<base>_textures/<texid>.<ext>` - C&C3 / KW / RA3 (per-movie dir)
use super::dat::{self, TextureMap};
use super::image_codec::{self, Bitmap};
use super::packer::{self, apart};
use super::{Error, Trouble};
use crate::apt::bytes::power_of_two;
use crate::paths;
use crate::text;
use vstd::prelude::*;

verus! {

/// A decoded texture: 8-bit RGBA, **straight** (not premultiplied) alpha,
/// top-left origin.
#[derive(Debug, Clone, PartialEq, Eq)]
pub struct Texture {
    pub width: u32,
    pub height: u32,
    /// `width * height * 4` bytes, row-major RGBA.
    pub rgba: Vec<u8>,
}

impl Texture {
    /// Whether there are as many bytes as the size asks for.
    pub open spec fn whole(self) -> bool {
        self.rgba@.len() == 4 * (self.width * self.height)
    }
}

/// Where one input texture landed inside a packed atlas.
#[derive(Debug, Clone, Copy, PartialEq, Eq, Structural)]
pub struct PackedRect {
    pub x: u32,
    pub y: u32,
    pub width: u32,
    pub height: u32,
}

/// 1px transparent gutter kept between packed sub-textures (and around the
/// atlas edge) so bilinear sampling can't bleed across neighbors.
pub const ATLAS_PADDING: u32 = 1;

/// Whether two places with their gutters have no point in common.
pub open spec fn clear_of(a: PackedRect, b: PackedRect) -> bool {
    ||| a.x + a.width + ATLAS_PADDING <= b.x
    ||| b.x + b.width + ATLAS_PADDING <= a.x
    ||| a.y + a.height + ATLAS_PADDING <= b.y
    ||| b.y + b.height + ATLAS_PADDING <= a.y
}

/// Whether every texture has a place of its own size on a page with these sides,
/// clear of all others.
pub open spec fn placed(t: Seq<Texture>, r: Seq<PackedRect>, side: int) -> bool {
    &&& r.len() == t.len()
    &&& forall|i: int|
        0 <= i < t.len() ==> {
            &&& (#[trigger] r[i]).width == t[i].width
            &&& r[i].height == t[i].height
            &&& r[i].x + r[i].width + ATLAS_PADDING <= side
            &&& r[i].y + r[i].height + ATLAS_PADDING <= side
        }
    &&& forall|i: int, j: int| 0 <= i < j < t.len() ==> clear_of(#[trigger] r[i], #[trigger] r[j])
}

/// The number of pixels of a texture.
pub open spec fn area(t: Texture) -> int {
    t.width * t.height
}

/// Whether `o` lists the textures, the largest first; of equal ones the earlier first.
pub open spec fn largest_first(t: Seq<Texture>, o: Seq<usize>) -> bool {
    &&& o.len() == t.len()
    &&& forall|i: int| 0 <= i < o.len() ==> (#[trigger] o[i]) < t.len()
    &&& forall|i: int, j: int|
        0 <= i < j < o.len() ==> {
            let a = area(t[(#[trigger] o[i]) as int]);
            let b = area(t[(#[trigger] o[j]) as int]);
            a > b || (a == b && o[i] < o[j])
        }
}

/// The `k`-th texture comes before the one at `o` in an order of the largest first.
pub open spec fn before(t: Seq<Texture>, a: int, b: int) -> bool {
    area(t[a]) > area(t[b]) || (area(t[a]) == area(t[b]) && a < b)
}

fn area_of(t: &Texture) -> (a: u64)
    ensures
        a == area(*t),
{
    assert(t.width * t.height <= 0xFFFF_FFFF * 0xFFFF_FFFF) by (nonlinear_arith)
        requires
            t.width <= 0xFFFF_FFFF,
            t.height <= 0xFFFF_FFFF,
    ;
    (t.width as u64) * (t.height as u64)
}

/// The textures, the largest first: the packer fills better when big rectangles
/// are placed while the page is still mostly empty.
fn by_area(textures: &[Texture]) -> (order: Vec<usize>)
    ensures
        largest_first(textures@, order@),
{
    let ghost t = textures@;
    let mut order: Vec<usize> = Vec::new();
    let mut k: usize = 0;
    while k < textures.len()
        invariant
            k <= textures@.len(),
            t == textures@,
            order@.len() == k,
            forall|i: int| 0 <= i < k ==> (#[trigger] order@[i]) < k,
            forall|i: int, j: int|
                0 <= i < j < k ==> before(t, #[trigger] order@[i] as int, #[trigger] order@[j] as int),
        decreases textures@.len() - k,
    {
        let a: u64 = area_of(&textures[k]);
        let mut p: usize = 0;
        while p < order.len() && area_of(&textures[order[p]]) >= a
            invariant
                p <= order@.len(),
                order@.len() == k,
                k < textures@.len(),
                t == textures@,
                a == area(t[k as int]),
                forall|i: int| 0 <= i < k ==> (#[trigger] order@[i]) < k,
                forall|i: int| 0 <= i < p ==> area(t[(#[trigger] order@[i]) as int]) >= a,
            decreases order@.len() - p,
        {
            p = p + 1;
        }
        let ghost was = order@;
        order.insert(p, k);
        proof {
            assert(order@ =~= was.insert(p as int, k));
            assert forall|i: int| 0 <= i < k + 1 implies (#[trigger] order@[i]) < k + 1 by {
                if i < p {
                    assert(order@[i] == was[i]);
                } else if i > p {
                    assert(order@[i] == was[i - 1]);
                }
            }
            assert forall|i: int, j: int| 0 <= i < j < k + 1 implies before(
                t,
                #[trigger] order@[i] as int,
                #[trigger] order@[j] as int,
            ) by {
                if j < p {
                    assert(order@[i] == was[i] && order@[j] == was[j]);
                } else if j == p {
                    assert(order@[i] == was[i]);
                } else if i < p {
                    assert(order@[i] == was[i] && order@[j] == was[j - 1]);
                } else if i > p {
                    assert(order@[i] == was[i - 1] && order@[j] == was[j - 1]);
                } else {
                    assert(order@[j] == was[j - 1]);
                    if j - 1 > p {
                        assert(before(t, was[p as int] as int, was[j - 1] as int));
                    }
                }
            }
        }
        k = k + 1;
    }
    order
}

/// Textures listed in an order of their own are all listed.
proof fn lemma_all_listed(t: Seq<Texture>, o: Seq<usize>, i: int)
    requires
        largest_first(t, o),
        0 <= i < t.len(),
    ensures
        exists|j: int| 0 <= j < o.len() && #[trigger] o[j] == i,
{
    let s = Seq::new(o.len(), |j: int| o[j] as int);
    assert(s.no_duplicates());
    let n = t.len() as int;
    let all = vstd::set_lib::set_int_range(0, n);
    vstd::set_lib::lemma_int_range(0, n);
    s.unique_seq_to_set();
    assert(s.to_set().subset_of(all)) by {
        assert forall|x: int| s.to_set().contains(x) implies all.contains(x) by {
            let j = choose|j: int| 0 <= j < s.len() && s[j] == x;
            assert(o[j] < t.len());
        }
    }
    vstd::set_lib::lemma_subset_equality(s.to_set(), all);
    assert(s.to_set().contains(i));
    let j = choose|j: int| 0 <= j < s.len() && s[j] == i;
    assert(o[j] == i);
}

/// The sizes of the first `n` textures in this order, with their gutters.
pub open spec fn requests(t: Seq<Texture>, o: Seq<usize>, n: nat) -> Seq<(u32, u32)> {
    Seq::new(
        n,
        |k: int|
            (
                (t[o[k] as int].width + ATLAS_PADDING) as u32,
                (t[o[k] as int].height + ATLAS_PADDING) as u32,
            ),
    )
}

/// Where the packer puts the `k`-th texture in this order, on a page with these sides.
pub open spec fn spot(t: Seq<Texture>, o: Seq<usize>, side: int, k: int) -> Option<(u32, u32)> {
    packer::room((side as u32, side as u32), requests(t, o, (k + 1) as nat))
}

/// Whether the packer finds room for all textures on a page with these sides.
pub open spec fn packs(t: Seq<Texture>, o: Seq<usize>, side: int) -> bool {
    forall|k: int| 0 <= k < o.len() ==> (#[trigger] spot(t, o, side, k)) is Some
}

/// Whether the textures are where the packer puts them.
pub open spec fn spotted(t: Seq<Texture>, o: Seq<usize>, r: Seq<PackedRect>, side: int) -> bool {
    forall|k: int|
        0 <= k < o.len() ==> spot(t, o, side, k) == Some(
            (r[(#[trigger] o[k]) as int].x, r[o[k] as int].y),
        )
}

/// Try to place every texture (each grown by [`ATLAS_PADDING`]) on a
/// `side`x`side` page. Returns each input's placement, or `None` if any texture
/// doesn't fit.
fn try_pack(textures: &[Texture], order: &Vec<usize>, side: u32) -> (r: Option<Vec<PackedRect>>)
    requires
        largest_first(textures@, order@),
        forall|i: int|
            0 <= i < textures@.len() ==> (#[trigger] textures@[i]).width < u32::MAX
                && textures@[i].height < u32::MAX,
    ensures
        r matches Some(rects) ==> placed(textures@, rects@, side as int) && spotted(
            textures@,
            order@,
            rects@,
            side as int,
        ),
        r is Some <==> packs(textures@, order@, side as int),
        textures@.len() == 1 && textures@[0].width < side && textures@[0].height < side ==> r is Some,
{
    let ghost t = textures@;
    let mut p = packer::new_packer(side, side);
    let mut rects: Vec<PackedRect> = Vec::new();
    let mut n: usize = 0;
    while n < textures.len()
        invariant
            n <= textures@.len(),
            rects@.len() == n,
        decreases textures@.len() - n,
    {
        rects.push(PackedRect { x: 0, y: 0, width: 0, height: 0 });
        n = n + 1;
    }
    let mut j: usize = 0;
    while j < order.len()
        invariant
            j <= order@.len(),
            t == textures@,
            rects@.len() == t.len(),
            largest_first(t, order@),
            forall|i: int| 0 <= i < t.len() ==> (#[trigger] t[i]).width < u32::MAX && t[i].height < u32::MAX,
            packer::page(&p) == (side, side),
            packer::asked(&p) == requests(t, order@, j as nat),
            forall|k: int|
                0 <= k < j ==> spot(t, order@, side as int, k) == Some(
                    (rects@[(#[trigger] order@[k]) as int].x, rects@[order@[k] as int].y),
                ),
            packer::given(&p).len() == j,
            forall|k: int|
                0 <= k < j ==> {
                    let r = rects@[(#[trigger] order@[k]) as int];
                    &&& packer::given(&p)[k] == (
                        r.x,
                        r.y,
                        (r.width + ATLAS_PADDING) as u32,
                        (r.height + ATLAS_PADDING) as u32,
                    )
                    &&& r.width == t[order@[k] as int].width
                    &&& r.height == t[order@[k] as int].height
                    &&& r.x + r.width + ATLAS_PADDING <= side
                    &&& r.y + r.height + ATLAS_PADDING <= side
                },
            forall|k: int, l: int|
                0 <= k < l < j ==> apart(#[trigger] packer::given(&p)[k], #[trigger] packer::given(&p)[l]),
        decreases order@.len() - j,
    {
        let i: usize = order[j];
        assert(order@[j as int] < t.len());
        let width: u32 = textures[i].width;
        let height: u32 = textures[i].height;
        let ghost was = rects@;
        let ghost before = packer::given(&p);
        assert(packer::asked(&p).push(
            ((width + ATLAS_PADDING) as u32, (height + ATLAS_PADDING) as u32),
        ) =~= requests(t, order@, (j + 1) as nat));
        match packer::find_free(&mut p, width + ATLAS_PADDING, height + ATLAS_PADDING) {
            Some((x, y)) => {
                rects.set(i, PackedRect { x, y, width, height });
                proof {
                    assert forall|k: int| 0 <= k < j implies rects@[(#[trigger] order@[k]) as int]
                        == was[order@[k] as int] by {
                        let a = area(t[order@[k] as int]);
                        let b = area(t[order@[j as int] as int]);
                        assert(a > b || (a == b && order@[k] < order@[j as int]));
                        assert(order@[k] != order@[j as int]);
                    }
                }
            },
            None => {
                assert(spot(t, order@, side as int, j as int) is None);
                return None;
            },
        }
        j = j + 1;
    }
    proof {
        assert forall|k: int| 0 <= k < order@.len() implies (#[trigger] spot(
            t,
            order@,
            side as int,
            k,
        )) is Some by {
            assert(order@[k] < t.len());
        }
        assert forall|i: int| 0 <= i < t.len() implies {
            &&& (#[trigger] rects@[i]).width == t[i].width
            &&& rects@[i].height == t[i].height
            &&& rects@[i].x + rects@[i].width + ATLAS_PADDING <= side
            &&& rects@[i].y + rects@[i].height + ATLAS_PADDING <= side
        } by {
            lemma_all_listed(t, order@, i);
            let k = choose|k: int| 0 <= k < order@.len() && #[trigger] order@[k] == i;
            assert(order@[k] == i);
        }
        assert forall|a: int, b: int| 0 <= a < b < t.len() implies clear_of(
            #[trigger] rects@[a],
            #[trigger] rects@[b],
        ) by {
            lemma_all_listed(t, order@, a);
            lemma_all_listed(t, order@, b);
            let k = choose|k: int| 0 <= k < order@.len() && #[trigger] order@[k] == a;
            let l = choose|l: int| 0 <= l < order@.len() && #[trigger] order@[l] == b;
            assert(order@[k] == a && order@[l] == b);
            let g = packer::given(&p);
            if k < l {
                assert(apart(g[k], g[l]));
            } else {
                assert(apart(g[l], g[k]));
            }
        }
    }
    Some(rects)
}

/// The place of the first byte of a pixel, in rows of `w` pixels.
pub open spec fn offset(w: int, x: int, y: int) -> int {
    4 * (y * w + x)
}

/// The four bytes of a pixel, in rows of `w` pixels.
pub open spec fn pixel(rgba: Seq<u8>, w: int, x: int, y: int) -> Seq<u8> {
    rgba.subrange(offset(w, x, y), offset(w, x, y) + 4)
}

/// Whether a pixel lies in a place.
pub open spec fn inside(r: PackedRect, x: int, y: int) -> bool {
    r.x <= x < r.x + r.width && r.y <= y < r.y + r.height
}

/// The pixel that the first `n` textures in their places show, a later one over
/// an earlier one; where there is none, all zeros.
pub open spec fn shown(t: Seq<Texture>, r: Seq<PackedRect>, n: nat, x: int, y: int) -> Seq<u8>
    decreases n,
{
    if n == 0 {
        seq![0u8, 0u8, 0u8, 0u8]
    } else if inside(r[n - 1], x, y) {
        pixel(
            t[n - 1].rgba@,
            t[n - 1].width as int,
            x - r[n - 1].x,
            y - r[n - 1].y,
        )
    } else {
        shown(t, r, (n - 1) as nat, x, y)
    }
}

proof fn lemma_offset(w: int, h: int, x: int, y: int)
    requires
        0 <= x < w,
        0 <= y < h,
    ensures
        0 <= offset(w, x, y),
        offset(w, x, y) + 4 <= 4 * (w * h),
{
    assert(0 <= y * w && y * w + w <= w * h) by (nonlinear_arith)
        requires
            0 <= y < h,
            0 < w,
    ;
}

/// Different pixels have different bytes.
proof fn lemma_offsets(w: int, x: int, y: int, u: int, v: int)
    requires
        0 <= x < w,
        0 <= u < w,
        (x, y) != (u, v),
    ensures
        offset(w, x, y) + 4 <= offset(w, u, v) || offset(w, u, v) + 4 <= offset(w, x, y),
{
    if y < v {
        assert(y * w + w <= v * w) by (nonlinear_arith)
            requires
                y < v,
                0 < w,
        ;
    } else if v < y {
        assert(v * w + w <= y * w) by (nonlinear_arith)
            requires
                v < y,
                0 < w,
        ;
    }
}

/// Where the pixel at (x, y) starts.
fn offset_of(w: u32, h: u32, x: u32, y: u32) -> (o: usize)
    requires
        x < w,
        y < h,
        4 * (w * h) <= usize::MAX,
    ensures
        o == offset(w as int, x as int, y as int),
        o + 4 <= 4 * (w * h),
{
    proof {
        lemma_offset(w as int, h as int, x as int, y as int);
        assert(0 <= y * w) by (nonlinear_arith)
            requires
                0 <= y,
                0 <= w,
        ;
        assert(y * w <= 0xFFFF_FFFF * 0xFFFF_FFFF) by (nonlinear_arith)
            requires
                0 <= y <= 0xFFFF_FFFF,
                0 <= w <= 0xFFFF_FFFF,
        ;
    }
    let row: u64 = (y as u64) * (w as u64);
    ((row + x as u64) * 4) as usize
}

/// Whether the page shows the first `n` textures, and of the next one the rows
/// above `dy` and in the row `dy` the pixels left of `dx`.
spec fn painted(
    t: Seq<Texture>,
    r: Seq<PackedRect>,
    rgba: Seq<u8>,
    side: int,
    n: int,
    dy: int,
    dx: int,
) -> bool {
    forall|x: int, y: int|
        0 <= x < side && 0 <= y < side ==> #[trigger] pixel(rgba, side, x, y) == if n < t.len()
            && inside(r[n], x, y) && (y < r[n].y + dy || (y == r[n].y + dy && x < r[n].x + dx)) {
            shown(t, r, (n + 1) as nat, x, y)
        } else {
            shown(t, r, n as nat, x, y)
        }
}

/// One pixel copied.
proof fn lemma_painted(
    t: Seq<Texture>,
    r: Seq<PackedRect>,
    old_rgba: Seq<u8>,
    rgba: Seq<u8>,
    side: int,
    n: int,
    dy: int,
    dx: int,
)
    requires
        painted(t, r, old_rgba, side, n, dy, dx),
        0 <= n < t.len(),
        0 <= dx < r[n].width,
        0 <= dy < r[n].height,
        r[n].x + dx < side,
        r[n].y + dy < side,
        old_rgba.len() == 4 * (side * side),
        rgba.len() == old_rgba.len(),
        pixel(rgba, side, r[n].x + dx, r[n].y + dy) == pixel(
            t[n].rgba@,
            t[n].width as int,
            dx,
            dy,
        ),
        ({
            let o = offset(side, r[n].x + dx, r[n].y + dy);
            forall|i: int| 0 <= i < rgba.len() && !(o <= i < o + 4) ==> rgba[i] == old_rgba[i]
        }),
    ensures
        painted(t, r, rgba, side, n, dy, dx + 1),
{
    let (px, py) = (r[n].x + dx, r[n].y + dy);
    assert forall|x: int, y: int| 0 <= x < side && 0 <= y < side implies #[trigger] pixel(
        rgba,
        side,
        x,
        y,
    ) == if n < t.len() && inside(r[n], x, y) && (y < r[n].y + dy || (y == r[n].y + dy && x
        < r[n].x + dx + 1)) {
        shown(t, r, (n + 1) as nat, x, y)
    } else {
        shown(t, r, n as nat, x, y)
    } by {
        if (x, y) != (px, py) {
            lemma_offsets(side, x, y, px, py);
            lemma_offset(side, side, x, y);
            assert(pixel(rgba, side, x, y) =~= pixel(old_rgba, side, x, y));
        }
    }
}

/// Draws one pixel.
fn copy_pixel(rgba: &mut Vec<u8>, o: usize, from: &Vec<u8>, p: usize)
    requires
        o + 4 <= old(rgba)@.len(),
        p + 4 <= from@.len(),
    ensures
        final(rgba)@.len() == old(rgba)@.len(),
        final(rgba)@.subrange(o as int, o + 4) == from@.subrange(p as int, p + 4),
        forall|i: int|
            0 <= i < old(rgba)@.len() && !(o <= i < o + 4) ==> final(rgba)@[i] == old(rgba)@[i],
{
    let n: usize = rgba.len();
    let m: usize = from.len();
    rgba.set(o, from[p]);
    rgba.set(o + 1, from[p + 1]);
    rgba.set(o + 2, from[p + 2]);
    rgba.set(o + 3, from[p + 3]);
    assert(rgba@.subrange(o as int, o + 4) =~= from@.subrange(p as int, p + 4));
}

/// A page of zeros.
fn blank(side: u32) -> (rgba: Vec<u8>)
    requires
        4 * (side * side) <= usize::MAX,
    ensures
        rgba@.len() == 4 * (side * side),
        forall|i: int| 0 <= i < rgba@.len() ==> rgba@[i] == 0,
{
    let mut rgba: Vec<u8> = Vec::new();
    assert(0 <= side * side <= 0xFFFF_FFFF * 0xFFFF_FFFF) by (nonlinear_arith)
        requires
            0 <= side <= 0xFFFF_FFFF,
    ;
    let n: u64 = (side as u64) * (side as u64);
    let mut i: u64 = 0;
    while i < n
        invariant
            i <= n,
            n == side * side,
            rgba@.len() == 4 * i,
            forall|k: int| 0 <= k < rgba@.len() ==> rgba@[k] == 0,
        decreases n - i,
    {
        rgba.push(0);
        rgba.push(0);
        rgba.push(0);
        rgba.push(0);
        i = i + 1;
    }
    rgba
}

/// Draws the textures in their places on a page with these sides.
pub fn compose(textures: &[Texture], rects: &[PackedRect], side: u32) -> (page: Texture)
    requires
        placed(textures@, rects@, side as int),
        forall|i: int| 0 <= i < textures@.len() ==> (#[trigger] textures@[i]).whole(),
        4 * (side * side) <= usize::MAX,
    ensures
        page.width == side,
        page.height == side,
        page.whole(),
        forall|x: int, y: int|
            0 <= x < side && 0 <= y < side ==> #[trigger] pixel(page.rgba@, side as int, x, y)
                == shown(textures@, rects@, textures@.len(), x, y),
{
    let ghost t = textures@;
    let ghost r = rects@;
    let ghost s = side as int;
    let mut rgba = blank(side);
    proof {
        assert forall|x: int, y: int| 0 <= x < s && 0 <= y < s implies #[trigger] pixel(
            rgba@,
            s,
            x,
            y,
        ) == shown(t, r, 0, x, y) by {
            lemma_offset(s, s, x, y);
            assert(pixel(rgba@, s, x, y) =~= seq![0u8, 0u8, 0u8, 0u8]);
        }
        assert(painted(t, r, rgba@, s, 0, 0, 0));
    }
    let mut i: usize = 0;
    while i < textures.len()
        invariant
            i <= t.len(),
            t == textures@,
            r == rects@,
            s == side,
            placed(t, r, s),
            forall|k: int| 0 <= k < t.len() ==> (#[trigger] t[k]).whole(),
            4 * (side * side) <= usize::MAX,
            rgba@.len() == 4 * (s * s),
            painted(t, r, rgba@, s, i as int, 0, 0),
        decreases t.len() - i,
    {
        let rect = rects[i];
        assert(r[i as int].width == t[i as int].width);
        assert(t[i as int].whole());
        let count: usize = textures[i].rgba.len();
        let mut dy: u32 = 0;
        while dy < rect.height
            invariant
                dy <= rect.height,
                i < t.len(),
                t == textures@,
                r == rects@,
                rect == r[i as int],
                s == side,
                rect.x + rect.width < s,
                rect.y + rect.height < s,
                rect.width == t[i as int].width,
                rect.height == t[i as int].height,
                t[i as int].whole(),
                count == t[i as int].rgba@.len(),
                4 * (side * side) <= usize::MAX,
                rgba@.len() == 4 * (s * s),
                painted(t, r, rgba@, s, i as int, dy as int, 0),
            decreases rect.height - dy,
        {
            let mut dx: u32 = 0;
            while dx < rect.width
                invariant
                    dx <= rect.width,
                    dy < rect.height,
                    i < t.len(),
                    t == textures@,
                    r == rects@,
                    rect == r[i as int],
                    s == side,
                    rect.x + rect.width < s,
                    rect.y + rect.height < s,
                    rect.width == t[i as int].width,
                    rect.height == t[i as int].height,
                    t[i as int].whole(),
                    count == t[i as int].rgba@.len(),
                    4 * (side * side) <= usize::MAX,
                    rgba@.len() == 4 * (s * s),
                    painted(t, r, rgba@, s, i as int, dy as int, dx as int),
                decreases rect.width - dx,
            {
                let from: usize = offset_of(rect.width, rect.height, dx, dy);
                let to: usize = offset_of(side, side, rect.x + dx, rect.y + dy);
                let ghost was = rgba@;
                copy_pixel(&mut rgba, to, &textures[i].rgba, from);
                proof {
                    lemma_painted(t, r, was, rgba@, s, i as int, dy as int, dx as int);
                }
                dx = dx + 1;
            }
            proof {
                assert forall|x: int, y: int| 0 <= x < s && 0 <= y < s implies #[trigger] pixel(
                    rgba@,
                    s,
                    x,
                    y,
                ) == if inside(r[i as int], x, y) && (y < r[i as int].y + (dy + 1) || (y
                    == r[i as int].y + (dy + 1) && x < r[i as int].x)) {
                    shown(t, r, (i + 1) as nat, x, y)
                } else {
                    shown(t, r, i as nat, x, y)
                } by {}
                assert(painted(t, r, rgba@, s, i as int, dy + 1, 0));
            }
            dy = dy + 1;
        }
        proof {
            assert forall|x: int, y: int| 0 <= x < s && 0 <= y < s implies #[trigger] pixel(
                rgba@,
                s,
                x,
                y,
            ) == shown(t, r, (i + 1) as nat, x, y) by {}
            assert(painted(t, r, rgba@, s, i + 1, 0, 0));
        }
        i = i + 1;
    }
    Texture { width: side, height: side, rgba }
}

/// The total area of the first `n` textures with their gutters.
pub open spec fn padded_area(t: Seq<Texture>, n: nat) -> int
    decreases n,
{
    if n == 0 {
        0
    } else {
        padded_area(t, (n - 1) as nat) + (t[n - 1].width + ATLAS_PADDING) * (t[n - 1].height
            + ATLAS_PADDING)
    }
}

/// Whether a page with these sides could conceivably hold the textures: each one
/// fits, and the area suffices.
pub open spec fn roomy(t: Seq<Texture>, side: int) -> bool {
    &&& forall|i: int|
        0 <= i < t.len() ==> (#[trigger] t[i]).width + ATLAS_PADDING <= side && t[i].height
            + ATLAS_PADDING <= side
    &&& padded_area(t, t.len()) <= side * side
}

/// Whether `side` is the smallest power of two that is roomy.
pub open spec fn starts_at(t: Seq<Texture>, side: int) -> bool {
    power_of_two(side) && roomy(t, side) && (side == 1 || !roomy(t, side / 2))
}

/// The longest side with its gutter.
fn longest(textures: &[Texture]) -> (m: u64)
    requires
        textures@.len() > 0,
    ensures
        forall|i: int|
            0 <= i < textures@.len() ==> (#[trigger] textures@[i]).width + ATLAS_PADDING <= m
                && textures@[i].height + ATLAS_PADDING <= m,
        exists|i: int|
            0 <= i < textures@.len() && ((#[trigger] textures@[i]).width + ATLAS_PADDING == m
                || textures@[i].height + ATLAS_PADDING == m),
        m <= 0x1_0000_0000,
{
    let mut m: u64 = 0;
    let mut i: usize = 0;
    while i < textures.len()
        invariant
            i <= textures@.len(),
            m <= 0x1_0000_0000,
            forall|k: int|
                0 <= k < i ==> (#[trigger] textures@[k]).width + ATLAS_PADDING <= m
                    && textures@[k].height + ATLAS_PADDING <= m,
            i > 0 ==> exists|k: int|
                0 <= k < i && ((#[trigger] textures@[k]).width + ATLAS_PADDING == m
                    || textures@[k].height + ATLAS_PADDING == m),
            i == 0 ==> m == 0,
        decreases textures@.len() - i,
    {
        let w: u64 = textures[i].width as u64 + ATLAS_PADDING as u64;
        let h: u64 = textures[i].height as u64 + ATLAS_PADDING as u64;
        let ghost was = m;
        if w > m {
            m = w;
        }
        if h > m {
            m = h;
        }
        proof {
            let t = textures@[i as int];
            if m == was && i > 0 {
                let k = choose|k: int|
                    0 <= k < i && ((#[trigger] textures@[k]).width + ATLAS_PADDING == was
                        || textures@[k].height + ATLAS_PADDING == was);
                assert(textures@[k].width + ATLAS_PADDING == m || textures@[k].height
                    + ATLAS_PADDING == m);
            }
        }
        i = i + 1;
    }
    m
}

/// The total area with gutters.
fn total_area(textures: &[Texture]) -> (a: u128)
    ensures
        a == padded_area(textures@, textures@.len()),
{
    let n: usize = textures.len();
    let mut a: u128 = 0;
    let mut i: usize = 0;
    while i < n
        invariant
            i <= n,
            n == textures@.len(),
            a == padded_area(textures@, i as nat),
            a <= i * 0x1_0000_0000_0000_0000,
        decreases n - i,
    {
        let w: u128 = textures[i].width as u128 + 1;
        let h: u128 = textures[i].height as u128 + 1;
        assert(0 <= w * h <= 0x1_0000_0000_0000_0000) by (nonlinear_arith)
            requires
                0 <= w <= 0x1_0000_0000,
                0 <= h <= 0x1_0000_0000,
        ;
        assert(i * 0x1_0000_0000_0000_0000 <= 0xFFFF_FFFF_FFFF_FFFF * 0x1_0000_0000_0000_0000)
            by (nonlinear_arith)
            requires
                0 <= i < 0x1_0000_0000_0000_0000,
        ;
        assert((i + 1) * 0x1_0000_0000_0000_0000 <= 0xFFFF_FFFF_FFFF_FFFF
            * 0x1_0000_0000_0000_0000) by (nonlinear_arith)
            requires
                0 <= i < n,
                n <= 0xFFFF_FFFF_FFFF_FFFF,
        ;
        a = a + w * h;
        i = i + 1;
    }
    a
}

proof fn lemma_square(a: int, b: int)
    requires
        0 <= a <= b,
    ensures
        a * a <= b * b,
{
    assert(a * a <= b * b) by (nonlinear_arith)
        requires
            0 <= a <= b,
    ;
}

fn square(n: u64) -> (s: u128)
    ensures
        s == n * n,
{
    assert(0 <= n * n <= 0xFFFF_FFFF_FFFF_FFFF * 0xFFFF_FFFF_FFFF_FFFF) by (nonlinear_arith)
        requires
            0 <= n <= 0xFFFF_FFFF_FFFF_FFFF,
    ;
    (n as u128) * (n as u128)
}

/// The smallest power of two that could conceivably hold the content, where it
/// is at most `max_side`.
fn first_side(textures: &[Texture], max_side: u32) -> (r: Option<u32>)
    requires
        textures@.len() > 0,
    ensures
        match r {
            Some(side) => starts_at(textures@, side as int) && side <= max_side,
            None => forall|s: int| #[trigger] starts_at(textures@, s) ==> s > max_side,
        },
{
    let ghost t = textures@;
    let min: u64 = longest(textures);
    let area: u128 = total_area(textures);
    let mut side: u64 = 1;
    while side < min || square(side) < area
        invariant
            t == textures@,
            power_of_two(side as int),
            1 <= side <= max_side || side == 1,
            side == 1 || !roomy(t, side as int / 2),
            area == padded_area(t, t.len()),
            forall|i: int|
                0 <= i < t.len() ==> (#[trigger] t[i]).width + ATLAS_PADDING <= min && t[i].height
                    + ATLAS_PADDING <= min,
            exists|i: int|
                0 <= i < t.len() && ((#[trigger] t[i]).width + ATLAS_PADDING == min || t[i].height
                    + ATLAS_PADDING == min),
        decreases max_side - side,
    {
        proof {
            assert(!roomy(t, side as int)) by {
                if side < min {
                    let i = choose|i: int|
                        0 <= i < t.len() && ((#[trigger] t[i]).width + ATLAS_PADDING == min
                            || t[i].height + ATLAS_PADDING == min);
                    assert(t[i].width + ATLAS_PADDING == min || t[i].height + ATLAS_PADDING == min);
                }
            }
            assert((2 * side) / 2 == side && (2 * side) % 2 == 0);
            assert(power_of_two(2 * side as int));
        }
        if 2 * side > max_side as u64 {
            proof {
                assert forall|s: int| #[trigger] starts_at(t, s) implies s > max_side by {
                    lemma_start_unique(t, s, side as int);
                }
            }
            return None;
        }
        side = 2 * side;
    }
    assert(roomy(t, side as int));
    if side > max_side as u64 {
        proof {
            assert forall|s: int| #[trigger] starts_at(t, s) implies s > max_side by {
                lemma_power(s);
            }
        }
        return None;
    }
    Some(side as u32)
}

proof fn lemma_power(n: int)
    requires
        power_of_two(n),
    ensures
        n >= 1,
{
}

/// A page that is too small stays so when it shrinks.
proof fn lemma_roomy(t: Seq<Texture>, a: int, b: int)
    requires
        0 <= a <= b,
        roomy(t, a),
    ensures
        roomy(t, b),
{
    lemma_square(a, b);
}

/// Powers of two above a given one are at least twice as large.
proof fn lemma_power_step(a: int, b: int)
    requires
        power_of_two(a),
        power_of_two(b),
        a < b,
    ensures
        2 * a <= b,
    decreases b,
{
    lemma_power(a);
    if a > 1 {
        lemma_power_step(a / 2, b / 2);
    }
}

proof fn lemma_start_unique(t: Seq<Texture>, s: int, side: int)
    requires
        starts_at(t, s),
        power_of_two(side),
        !roomy(t, side),
    ensures
        s >= 2 * side,
{
    lemma_power(s);
    if s <= side {
        lemma_roomy(t, s, side);
    } else {
        lemma_power_step(side, s);
    }
}

/// A page that the packer is tried with: a roomy power of two.
pub open spec fn candidate(t: Seq<Texture>, s: int) -> bool {
    power_of_two(s) && roomy(t, s)
}

/// Whether `r` is what packing textures gives: the smallest page that the packer finds
/// room on for all of them, the largest first, with each where the packer put it; none
/// where there are no textures or no page up to `max_side` does.
pub open spec fn packing(
    t: Seq<Texture>,
    max_side: int,
    r: Option<(Texture, Seq<PackedRect>)>,
) -> bool {
    exists|o: Seq<usize>| #[trigger]
        largest_first(t, o) && match r {
            Some((atlas, rects)) => {
                let side = atlas.width as int;
                &&& t.len() > 0
                &&& atlas.height == side
                &&& atlas.whole()
                &&& candidate(t, side)
                &&& side <= max_side
                &&& packs(t, o, side)
                &&& spotted(t, o, rects, side)
                &&& placed(t, rects, side)
                &&& forall|s: int| #[trigger] candidate(t, s) && s < side ==> !packs(t, o, s)
                &&& forall|x: int, y: int|
                    0 <= x < side && 0 <= y < side ==> #[trigger] pixel(atlas.rgba@, side, x, y)
                        == shown(t, rects, t.len(), x, y)
            },
            None => t.len() == 0 || forall|s: int| #[trigger]
                candidate(t, s) && s <= max_side ==> !packs(t, o, s),
        }
}

/// Below any candidate there is the first one.
proof fn lemma_first(t: Seq<Texture>, s: int) -> (f: int)
    requires
        candidate(t, s),
    ensures
        starts_at(t, f),
        f <= s,
    decreases s,
{
    lemma_power(s);
    if s > 1 && roomy(t, s / 2) {
        lemma_first(t, s / 2)
    } else {
        s
    }
}

/// No candidate is below the first one.
proof fn lemma_none_below(t: Seq<Texture>, first: int, s: int)
    requires
        starts_at(t, first),
        candidate(t, s),
    ensures
        first <= s,
{
    lemma_power(s);
    lemma_power(first);
    if s < first {
        lemma_power_step(s, first);
        lemma_roomy(t, s, first / 2);
    }
}

/// Pack textures into one shared **square, power-of-two** atlas (512x512,
/// 1024x1024, ...). Tries the smallest square power-of-two that could hold the
/// content and doubles until everything fits.
///
/// Returns `None` if the textures don't fit within a `max_side`x`max_side`
/// square - the caller should then skip packing and export each texture
/// standalone.
///
/// On success, returns the atlas plus each input's placement, indexed the same
/// as `textures` (largest are placed first internally for a tighter fit).
pub fn pack_textures(textures: &[Texture], max_side: u32) -> (r: Option<(Texture, Vec<PackedRect>)>)
    requires
        forall|i: int|
            0 <= i < textures@.len() ==> (#[trigger] textures@[i]).whole()
                && textures@[i].width < u32::MAX && textures@[i].height < u32::MAX,
        4 * (max_side * max_side) <= usize::MAX,
    ensures
        match r {
            Some((atlas, rects)) => packing(textures@, max_side as int, Some((atlas, rects@))),
            None => packing(textures@, max_side as int, None),
        },
        textures@.len() == 1 && (exists|s: int|
            #[trigger] starts_at(textures@, s) && s <= max_side) ==> r is Some,
{
    let ghost t = textures@;
    let order = by_area(textures);
    if textures.len() == 0 {
        assert(largest_first(t, order@));
        return None;
    }
    let mut side: u32 = match first_side(textures, max_side) {
        Some(side) => side,
        None => {
            proof {
                assert forall|s: int| #[trigger] candidate(t, s) && s <= max_side implies !packs(
                    t,
                    order@,
                    s,
                ) by {
                    let f = lemma_first(t, s);
                }
                assert(largest_first(t, order@));
            }
            return None;
        },
    };
    let ghost first = side;
    proof {
        assert forall|s: int| #[trigger] candidate(t, s) && s < side implies !packs(t, order@, s) by {
            lemma_none_below(t, side as int, s);
        }
    }
    loop
        invariant
            t == textures@,
            t.len() > 0,
            largest_first(t, order@),
            forall|i: int|
                0 <= i < t.len() ==> (#[trigger] t[i]).whole() && t[i].width < u32::MAX
                    && t[i].height < u32::MAX,
            4 * (max_side * max_side) <= usize::MAX,
            power_of_two(side as int),
            roomy(t, side as int),
            1 <= side <= max_side,
            starts_at(t, first as int),
            first <= max_side,
            t.len() == 1 ==> side == first,
            forall|s: int| #[trigger] candidate(t, s) && s < side ==> !packs(t, order@, s),
        decreases max_side - side,
    {
        proof {
            assert(t[0].width + ATLAS_PADDING <= side);
        }
        match try_pack(textures, &order, side) {
            Some(rects) => {
                proof {
                    lemma_square(side as int, max_side as int);
                }
                let atlas = compose(textures, rects.as_slice(), side);
                assert(largest_first(t, order@));
                return Some((atlas, rects));
            },
            None => {},
        }
        proof {
            assert forall|s: int| #[trigger] candidate(t, s) && s < 2 * side implies !packs(
                t,
                order@,
                s,
            ) by {
                if s > side {
                    lemma_power_step(side as int, s);
                }
            }
        }
        if side > max_side / 2 {
            assert(largest_first(t, order@));
            return None;
        }
        proof {
            lemma_roomy(t, side as int, 2 * side);
            assert((2 * side) / 2 == side && (2 * side) % 2 == 0);
            assert(power_of_two(2 * side as int));
        }
        side = 2 * side;
    }
}

/// What an image file shows. The format is the one that the content tells, else
/// the one that the extension names.
pub open spec fn decode_of(data: Seq<u8>, hint: Option<Seq<char>>) -> Option<Bitmap> {
    match image_codec::guessed(data) {
        Some(f) => image_codec::decoded(data, f),
        None => match hint {
            Some(ext) => match image_codec::format_for(ext) {
                Some(f) => image_codec::decoded(data, f),
                None => image_codec::decoded_any(data),
            },
            None => image_codec::decoded_any(data),
        },
    }
}

/// The choice of a format: the one that the content tells, else the one that the
/// extension names.
pub fn choose_format(guess: Option<String>, hint: Option<String>) -> (r: Option<String>)
    ensures
        r == if guess is Some {
            guess
        } else {
            hint
        },
{
    match guess {
        Some(f) => Some(f),
        None => hint,
    }
}

/// Whether an extension says TGA, in upper or lower case.
pub open spec fn says_tga(ext: Seq<char>) -> bool {
    &&& ext.len() == 3
    &&& ext[0] == 't' || ext[0] == 'T'
    &&& ext[1] == 'g' || ext[1] == 'G'
    &&& ext[2] == 'a' || ext[2] == 'A'
}

/// Whether an extension says TGA, in upper or lower case.
pub fn is_tga(ext: &str) -> (b: bool)
    ensures
        b == says_tga(ext@),
{
    let v = text::to_chars(ext);
    v.len() == 3 && (v[0] == 't' || v[0] == 'T') && (v[1] == 'g' || v[1] == 'G') && (v[2] == 'a'
        || v[2] == 'A')
}

impl View for Texture {
    type V = Bitmap;

    open spec fn view(&self) -> Bitmap {
        Bitmap { width: self.width, height: self.height, rgba: self.rgba@ }
    }
}

impl Texture {
    /// Decode an image from bytes. The format is sniffed from the content, and
    /// from the extension of the file when sniffing is inconclusive (TGA has no
    /// magic number).
    pub fn decode(data: &[u8], hint: Option<&str>) -> (r: Result<Texture, Error>)
        ensures
            ({
                let ext = match hint {
                    Some(s) => Some(s@),
                    None => None,
                };
                match r {
                    Ok(t) => decode_of(data@, ext) == Some(t@),
                    Err(e) => decode_of(data@, ext) is None && e@ == Trouble::UndecodableImage,
                }
            }),
    {
        let guess = image_codec::guess_format(data);
        let named = match hint {
            Some(ext) => if guess.is_some() {
                None
            } else {
                image_codec::from_extension(ext)
            },
            None => None,
        };
        let p = match choose_format(guess, named) {
            Some(f) => image_codec::load_with_format(data, f.as_str()),
            None => image_codec::load(data),
        };
        match p {
            Some(p) => Ok(Texture { width: p.width, height: p.height, rgba: p.rgba }),
            None => Err(Error::UndecodableImage),
        }
    }

    /// Encode this texture; the image format is chosen from the file extension.
    ///
    /// TGA is written **uncompressed** (truecolor type 2): the classic games'
    /// texture loaders reject RLE-compressed TGA.
    pub fn encode(&self, extension: &str) -> (r: Result<Vec<u8>, Error>)
        requires
            says_tga(extension@) ==> self.whole(),
        ensures
            ({
                let fits = 0 < self.width <= 0xFFFF && 0 < self.height <= 0xFFFF;
                let short = self.rgba@.len() < 4 * (self.width * self.height);
                let plain = image_codec::encoded(
                    self.width,
                    self.height,
                    self.rgba@,
                    extension@,
                );
                match r {
                    Ok(b) => if says_tga(extension@) {
                        fits && b@ == image_codec::tga(self.width, self.height, self.rgba@)
                    } else {
                        !short && plain == Some(b@)
                    },
                    Err(e) => if says_tga(extension@) {
                        !fits && e@ == Trouble::UnencodableImage
                    } else if short {
                        e@ == Trouble::BadDimensions
                    } else {
                        plain is None && e@ == Trouble::UnencodableImage
                    },
                }
            }),
    {
        let b = if is_tga(extension) {
            image_codec::encode_tga(self.width, self.height, &self.rgba)
        } else {
            let need: u128 = 4 * (area_of(self) as u128);
            if (self.rgba.len() as u128) < need {
                return Err(Error::BadDimensions);
            }
            image_codec::encode_as(self.width, self.height, &self.rgba, extension)
        };
        match b {
            Some(b) => Ok(b),
            None => Err(Error::UnencodableImage),
        }
    }
}

/// Resolves the textures a movie's shapes reference.
pub trait TextureSource {
    /// Map a bitmap character ID to a texture ID. Several characters may share
    /// one texture (e.g. a packed atlas), so callers can dedupe on this.
    fn texture_id(&self, bitmap_character_id: u32) -> u32;

    /// The texture with the given texture ID, or `None` if unavailable.
    fn texture(&self, texture_id: u32) -> Option<&Texture>;
}

/// A [`TextureSource`] with no textures.
pub struct NoTextures;

impl TextureSource for NoTextures {
    fn texture_id(&self, bitmap_character_id: u32) -> (id: u32)
        ensures
            id == bitmap_character_id,
    {
        bitmap_character_id
    }

    fn texture(&self, texture_id: u32) -> (t: Option<&Texture>)
        ensures
            t is None,
    {
        None
    }
}

/// What a search for a texture brought.
pub struct Found {
    pub texture_id: u32,
    pub texture: Option<Texture>,
}

/// Knows the file layouts used by the classic games, applies the movie's `.dat`
/// map, and keeps the textures that were found.
pub struct FileTextureSource {
    /// Movie base path (no extension).
    pub base: String,
    pub map: TextureMap,
    /// What was found so far, each texture once.
    pub found: Vec<Found>,
}

/// The extensions tried, in order, for each candidate location.
pub open spec fn extensions() -> Seq<Seq<char>> {
    seq!["tga"@, "dds"@, "png"@, "jpg"@, "jpeg"@]
}

/// The name of the movie at a base path.
pub open spec fn movie_name(base: Seq<char>) -> Seq<char> {
    match paths::file_name(base) {
        Some(n) => n,
        None => "apt"@,
    }
}

/// The file of a texture in the shared texture directory: BFME / BFME2.
pub open spec fn shared_file(base: Seq<char>, id: u32, ext: Seq<char>) -> Seq<char> {
    paths::folder(base) + "art/Textures/apt_"@ + movie_name(base) + "_"@ + text::decimal(id as nat)
        + "."@ + ext
}

/// The file of a texture in the per-movie texture directory: C&C3 / KW / RA3.
pub open spec fn movie_file(base: Seq<char>, id: u32, ext: Seq<char>) -> Seq<char> {
    paths::folder(base) + movie_name(base) + "_textures/"@ + text::decimal(id as nat) + "."@ + ext
}

/// Candidate files for a texture ID with the first `n` extensions, most likely first.
pub open spec fn candidate_files(base: Seq<char>, id: u32, n: nat) -> Seq<Seq<char>>
    decreases n,
{
    if n == 0 {
        Seq::empty()
    } else {
        let ext = extensions()[n - 1];
        candidate_files(base, id, (n - 1) as nat).push(shared_file(base, id, ext)).push(
            movie_file(base, id, ext),
        )
    }
}

/// The first thing that was found under an ID.
pub open spec fn kept(v: Seq<Found>, id: u32, n: nat) -> Option<Option<Bitmap>>
    decreases n,
{
    if n == 0 {
        None
    } else if kept(v, id, (n - 1) as nat) is Some {
        kept(v, id, (n - 1) as nat)
    } else if v[n - 1].texture_id == id {
        match v[n - 1].texture {
            Some(t) => Some(Some(t@)),
            None => Some(None),
        }
    } else {
        None
    }
}

impl FileTextureSource {
    /// A source for the movie at `base` (path without extension) with the given
    /// texture map.
    pub fn new(base: &str, map: TextureMap) -> (s: FileTextureSource)
        ensures
            s.base@ == base@,
            s.map == map,
            s.found@.len() == 0,
    {
        FileTextureSource { base: base.to_owned(), map, found: Vec::new() }
    }

    /// Candidate files for a texture ID, most likely first.
    pub fn candidates(&self, texture_id: u32) -> (out: Vec<String>)
        ensures
            super::ru::names(out@) == candidate_files(self.base@, texture_id, 5),
    {
        let dir = paths::folder_of(self.base.as_str());
        let name = match paths::name_of(self.base.as_str()) {
            Some(n) => n,
            None => text::copy_of("apt"),
        };
        let ghost b = self.base@;
        let exts = ["tga", "dds", "png", "jpg", "jpeg"];
        let mut out: Vec<String> = Vec::new();
        let mut i: usize = 0;
        assert(super::ru::names(out@) =~= candidate_files(b, texture_id, 0));
        while i < 5
            invariant
                i <= 5,
                b == self.base@,
                dir@ == paths::folder(b),
                name@ == movie_name(b),
                exts@ == seq!["tga", "dds", "png", "jpg", "jpeg"],
                super::ru::names(out@) == candidate_files(b, texture_id, i as nat),
            decreases 5 - i,
        {
            let ext = exts[i];
            assert(ext@ == extensions()[i as int]);
            let ghost before = out@;
            // BFME / BFME2: one shared texture directory.
            let mut a = dir.clone();
            text::push_text(&mut a, "art/Textures/apt_");
            text::push_text(&mut a, name.as_str());
            text::push_text(&mut a, "_");
            text::push_decimal(&mut a, texture_id);
            text::push_text(&mut a, ".");
            text::push_text(&mut a, ext);
            // C&C3 / KW / RA3: per-movie texture directory.
            let mut m = dir.clone();
            text::push_text(&mut m, name.as_str());
            text::push_text(&mut m, "_textures/");
            text::push_decimal(&mut m, texture_id);
            text::push_text(&mut m, ".");
            text::push_text(&mut m, ext);
            assert(a@ =~= shared_file(b, texture_id, ext@));
            assert(m@ =~= movie_file(b, texture_id, ext@));
            out.push(a);
            out.push(m);
            assert(super::ru::names(out@) =~= super::ru::names(before).push(a@).push(m@));
            i = i + 1;
        }
        out
    }

    /// What was found under an ID; `None` where nothing was looked for yet.
    pub fn cached(&self, texture_id: u32) -> (r: Option<Option<&Texture>>)
        ensures
            match r {
                Some(Some(t)) => kept(self.found@, texture_id, self.found@.len()) == Some(
                    Some(t@),
                ),
                Some(None) => kept(self.found@, texture_id, self.found@.len()) == Some(
                    None::<Bitmap>,
                ),
                None => kept(self.found@, texture_id, self.found@.len()) is None,
            },
    {
        let mut i: usize = 0;
        while i < self.found.len()
            invariant
                i <= self.found@.len(),
                kept(self.found@, texture_id, i as nat) is None,
            decreases self.found@.len() - i,
        {
            if self.found[i].texture_id == texture_id {
                proof {
                    lemma_kept(self.found@, texture_id, (i + 1) as nat, self.found@.len());
                }
                return match &self.found[i].texture {
                    Some(t) => Some(Some(t)),
                    None => Some(None),
                };
            }
            i = i + 1;
        }
        None
    }

    /// Keeps what a search for a texture brought.
    pub fn remember(&mut self, texture_id: u32, texture: Option<Texture>)
        ensures
            final(self).base == old(self).base,
            final(self).map == old(self).map,
            final(self).found@ == old(self).found@.push(Found { texture_id, texture }),
    {
        self.found.push(Found { texture_id, texture });
    }
}

proof fn lemma_kept(v: Seq<Found>, id: u32, i: nat, n: nat)
    requires
        i <= n,
        kept(v, id, i) is Some,
    ensures
        kept(v, id, n) == kept(v, id, i),
    decreases n - i,
{
    if i < n {
        lemma_kept(v, id, i, (n - 1) as nat);
    }
}

impl TextureSource for FileTextureSource {
    fn texture_id(&self, bitmap_character_id: u32) -> (id: u32)
        ensures
            id == dat::texture_of(self.map@, bitmap_character_id),
    {
        self.map.texture_id(bitmap_character_id)
    }

    fn texture(&self, texture_id: u32) -> (t: Option<&Texture>)
        ensures
            match t {
                Some(t) => kept(self.found@, texture_id, self.found@.len()) == Some(Some(t@)),
                None => kept(self.found@, texture_id, self.found@.len()) is None || kept(
                    self.found@,
                    texture_id,
                    self.found@.len(),
                ) == Some(None::<Bitmap>),
            },
    {
        match self.cached(texture_id) {
            Some(t) => t,
            None => None,
        }
    }
}

} // verus!
