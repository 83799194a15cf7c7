//! Where the pixels of an image come from.
use super::bitmaps::{
    alpha_put, divided, expanded, image_of, layout_of, row_texels, texel, texels, Layout,
};
use super::swf_read::{LosslessData, PixelFormat};
use crate::apt_aux::image_codec::Bitmap;
use vstd::prelude::*;

verus! {

/// Whether a byte is the nearest to a channel of five bits: 31 stands for 255.
pub open spec fn widened(out: u8, c: int) -> bool {
    -15 <= 31 * out - 255 * c <= 15
}

/// Whether a byte is what a channel was before it was multiplied by its alpha, cut to a
/// whole number.
pub open spec fn unmultiplied(out: u8, c: u8, a: u8) -> bool {
    &&& a == 0 ==> out == 0
    &&& 0 < a && c <= a ==> a * out <= 255 * c < a * (out + 1)
    &&& 0 < a < c ==> out == 255
}

/// How many bytes a row takes, with those that fill it up to a multiple of four.
pub open spec fn row_bytes(l: Layout) -> int {
    let n = match l.format {
        PixelFormat::ColorMap8 { .. } => l.width as int,
        PixelFormat::Rgb15 => 2 * l.width as int,
        PixelFormat::Rgb32 => 4 * l.width as int,
    };
    if n % 4 == 0 {
        n
    } else {
        n + 4 - n % 4
    }
}

/// How many bytes the colors in front of the rows take: three each, or four with alpha.
pub open spec fn color_bytes(l: Layout) -> int {
    match l.format {
        PixelFormat::ColorMap8 { num_colors } => if l.alpha {
            4 * (num_colors + 1)
        } else {
            3 * (num_colors + 1)
        },
        _ => 0,
    }
}

/// Whether a pixel is the one that stands in the bytes: its color in the palette, five
/// bits a channel from the second highest on, or alpha, red, green and blue.
pub open spec fn pixel_stands(t: Seq<u8>, l: Layout, raw: Seq<u8>, x: int, y: int) -> bool {
    let row = color_bytes(l) + y * row_bytes(l);
    &&& t.len() == 4
    &&& match l.format {
        PixelFormat::ColorMap8 { num_colors } => row + l.width <= raw.len() ==> {
            let k = raw[row + x] as int;
            &&& k > num_colors ==> t == seq![0u8, 0, 0, 0]
            &&& k <= num_colors && l.alpha ==> t[0] == raw[4 * k] && t[1] == raw[4 * k + 1] && t[2]
                == raw[4 * k + 2] && t[3] == raw[4 * k + 3]
            &&& k <= num_colors && !l.alpha ==> t[0] == raw[3 * k] && t[1] == raw[3 * k + 1] && t[2]
                == raw[3 * k + 2] && t[3] == 255
        },
        PixelFormat::Rgb15 => row + 2 * l.width <= raw.len() ==> {
            let v = 256 * raw[row + 2 * x] + raw[row + 2 * x + 1];
            &&& widened(t[0], v / 1024 % 32)
            &&& widened(t[1], v / 32 % 32)
            &&& widened(t[2], v % 32)
            &&& t[3] == 255
        },
        PixelFormat::Rgb32 => row + 4 * l.width <= raw.len() ==> {
            let a = raw[row + 4 * x];
            let (r, g, b) = (raw[row + 4 * x + 1], raw[row + 4 * x + 2], raw[row + 4 * x + 3]);
            &&& !l.alpha ==> t == seq![r, g, b, 255]
            &&& l.alpha ==> t[3] == a && unmultiplied(t[0], r, a) && unmultiplied(t[1], g, a)
                && unmultiplied(t[2], b, a)
        },
    }
}

proof fn lemma_widened(c: int)
    requires
        0 <= c < 32,
    ensures
        widened(expanded(c), c),
{
    let q = (c * 255 + 15) / 31;
    assert(0 <= q <= 255);
}

proof fn lemma_unmultiplied(c: u8, a: u8)
    ensures
        unmultiplied(divided(c, a), c, a),
{
    if a > 0 {
        let q = c as int * 255 / a as int;
        let (x, y): (int, int) = (c as int, a as int);
        assert(y * q <= x * 255 < y * (q + 1) && 0 <= q) by (nonlinear_arith)
            requires
                y > 0,
                x >= 0,
                q == x * 255 / y,
        ;
        if c <= a {
            assert(q <= 255) by (nonlinear_arith)
                requires
                    y * q <= x * 255,
                    0 <= x <= y,
                    y > 0,
            ;
        } else {
            assert(q >= 255) by (nonlinear_arith)
                requires
                    x * 255 < y * (q + 1),
                    x > y,
                    y > 0,
            ;
        }
    }
}

/// A pixel is the one that stands in the bytes.
pub proof fn law_pixel(l: Layout, raw: Seq<u8>, x: int, y: int)
    requires
        0 <= x < l.width,
        0 <= y,
    ensures
        pixel_stands(texel(l, raw, x, y), l, raw, x, y),
{
    assert(l.stride() == row_bytes(l));
    assert(l.palette() == color_bytes(l)) by (nonlinear_arith)
        requires
            l.palette() == match l.format {
                PixelFormat::ColorMap8 { num_colors } => (num_colors + 1) * l.entry(),
                _ => 0,
            },
            color_bytes(l) == match l.format {
                PixelFormat::ColorMap8 { num_colors } => if l.alpha {
                    4 * (num_colors + 1)
                } else {
                    3 * (num_colors + 1)
                },
                _ => 0,
            },
            l.entry() == if l.alpha {
                4int
            } else {
                3
            },
    ;
    let row = color_bytes(l) + y * row_bytes(l);
    match l.format {
        PixelFormat::Rgb15 => {
            let v = 256 * raw[row + 2 * x] + raw[row + 2 * x + 1];
            lemma_widened(v / 1024 % 32);
            lemma_widened(v / 32 % 32);
            lemma_widened(v % 32);
        },
        PixelFormat::Rgb32 => {
            lemma_unmultiplied(raw[row + 4 * x + 1], raw[row + 4 * x]);
            lemma_unmultiplied(raw[row + 4 * x + 2], raw[row + 4 * x]);
            lemma_unmultiplied(raw[row + 4 * x + 3], raw[row + 4 * x]);
        },
        PixelFormat::ColorMap8 { num_colors } => {
            let k = raw[row + x] as int;
            assert(l.alpha ==> k * l.entry() == 4 * k);
            assert(!l.alpha ==> k * l.entry() == 3 * k);
        },
    }
}

proof fn lemma_row(l: Layout, raw: Seq<u8>, n: nat, x: int, y: int)
    requires
        0 <= x < n <= l.width,
        0 <= y,
    ensures
        row_texels(l, raw, n, y).len() == 4 * n,
        row_texels(l, raw, n, y).subrange(4 * x, 4 * x + 4) == texel(l, raw, x, y),
    decreases n,
{
    lemma_row_len(l, raw, n, y);
    let before = row_texels(l, raw, (n - 1) as nat, y);
    let all = row_texels(l, raw, n, y);
    lemma_row_len(l, raw, (n - 1) as nat, y);
    law_pixel(l, raw, n - 1, y);
    if x < n - 1 {
        lemma_row(l, raw, (n - 1) as nat, x, y);
        assert(all.subrange(4 * x, 4 * x + 4) =~= before.subrange(4 * x, 4 * x + 4));
    } else {
        assert(all.subrange(4 * x, 4 * x + 4) =~= texel(l, raw, x, y));
    }
}

proof fn lemma_row_len(l: Layout, raw: Seq<u8>, n: nat, y: int)
    requires
        n <= l.width,
        0 <= y,
    ensures
        row_texels(l, raw, n, y).len() == 4 * n,
    decreases n,
{
    if n > 0 {
        lemma_row_len(l, raw, (n - 1) as nat, y);
        law_pixel(l, raw, n - 1, y);
    }
}

proof fn lemma_rows_len(l: Layout, raw: Seq<u8>, h: nat)
    ensures
        texels(l, raw, h).len() == 4 * (h * l.width),
    decreases h,
{
    if h > 0 {
        lemma_rows_len(l, raw, (h - 1) as nat);
        lemma_row_len(l, raw, l.width, h - 1);
        assert((h - 1) * l.width + l.width == h * l.width) by (nonlinear_arith);
    }
}

proof fn lemma_rows(l: Layout, raw: Seq<u8>, h: nat, x: int, y: int)
    requires
        0 <= x < l.width,
        0 <= y < h,
    ensures
        ({
            let at = 4 * (y * l.width + x);
            &&& 0 <= at && at + 4 <= texels(l, raw, h).len()
            &&& texels(l, raw, h).subrange(at, at + 4) == texel(l, raw, x, y)
        }),
    decreases h,
{
    let at = 4 * (y * l.width + x);
    let before = texels(l, raw, (h - 1) as nat);
    let all = texels(l, raw, h);
    lemma_rows_len(l, raw, h);
    lemma_rows_len(l, raw, (h - 1) as nat);
    lemma_row_len(l, raw, l.width, h - 1);
    if y < h - 1 {
        lemma_rows(l, raw, (h - 1) as nat, x, y);
        assert(all.subrange(at, at + 4) =~= before.subrange(at, at + 4));
    } else {
        let row = row_texels(l, raw, l.width, y);
        lemma_row(l, raw, l.width, x, y);
        assert(y * l.width >= 0) by (nonlinear_arith)
            requires
                y >= 0,
                l.width >= 0,
        ;
        assert(before.len() == 4 * (y * l.width));
        assert(all.subrange(at, at + 4) =~= row.subrange(4 * x, 4 * x + 4));
    }
}

/// An image has its pixels row by row, four bytes each, and its palette and rows have
/// alpha exactly in the second version of the tag.
pub proof fn law_image(tag: LosslessData, raw: Seq<u8>, x: int, y: int)
    requires
        0 <= x < tag.width,
        0 <= y < tag.height,
        color_bytes(layout_of(tag)) <= raw.len(),
    ensures
        image_of(tag, raw) matches Some(b) && {
            let at = 4 * (y * tag.width + x);
            &&& b.width == tag.width
            &&& b.height == tag.height
            &&& 0 <= at && at + 4 <= b.rgba.len()
            &&& pixel_stands(
                b.rgba.subrange(at, at + 4),
                Layout { format: tag.format, width: tag.width as nat, alpha: tag.version == 2 },
                raw,
                x,
                y,
            )
        },
{
    let l = layout_of(tag);
    law_pixel(l, raw, x, y);
    lemma_rows(l, raw, tag.height as nat, x, y);
    assert(l.palette() == color_bytes(l)) by {
        lemma_colors(l);
    }
}

proof fn lemma_colors(l: Layout)
    ensures
        l.palette() == color_bytes(l),
{
    if let PixelFormat::ColorMap8 { num_colors } = l.format {
        let n = num_colors + 1;
        assert(l.alpha ==> n * l.entry() == 4 * n);
        assert(!l.alpha ==> n * l.entry() == 3 * n);
    }
}

/// An alpha channel goes to the pixels one for one and changes nothing else; one that is
/// too short for all of them goes to none.
pub proof fn law_alpha(b: Bitmap, alpha: Seq<u8>, i: int)
    requires
        0 <= i < b.width * b.height,
        b.rgba.len() == 4 * (b.width * b.height),
    ensures
        ({
            let r = alpha_put(b, alpha);
            &&& r.width == b.width
            &&& r.height == b.height
            &&& r.rgba.len() == b.rgba.len()
            &&& r.rgba[4 * i] == b.rgba[4 * i]
            &&& r.rgba[4 * i + 1] == b.rgba[4 * i + 1]
            &&& r.rgba[4 * i + 2] == b.rgba[4 * i + 2]
            &&& alpha.len() >= b.width * b.height ==> r.rgba[4 * i + 3] == alpha[i]
            &&& alpha.len() < b.width * b.height ==> r.rgba[4 * i + 3] == b.rgba[4 * i + 3]
        }),
{
}

} // verus!
