//! Images embedded in SWF files, decoded to textures (straight-alpha RGBA8,
//! top-left origin), so that they can be packed into a texture atlas again.
//!
//! Covers the three tag families used by bitmap fills: plain JPEG, JPEG with a
//! separate zlib alpha channel, and zlib-compressed indexed, RGB15 or RGB32
//! pixels.
use super::building;
use super::swf_read::{Jpeg, Lossless, LosslessData, PixelFormat};
use super::zlib;
use crate::apt_aux::image_codec::{self, Bitmap};
use crate::apt_aux::texture::Texture;
use vstd::arithmetic::mul::lemma_mul_is_distributive_add_other_way;
use vstd::prelude::*;

verus! {

/// An end of image followed by a start of image.
pub open spec fn is_marker(d: Seq<u8>, i: int) -> bool {
    i + 4 <= d.len() && d[i] == 0xFF && d[i + 1] == 0xD9 && d[i + 2] == 0xFF && d[i + 3] == 0xD8
}

/// The first marker from `i` on.
pub open spec fn marker_from(d: Seq<u8>, i: int) -> Option<int>
    decreases d.len() - i,
{
    if i + 4 > d.len() {
        None
    } else if is_marker(d, i) {
        Some(i)
    } else {
        marker_from(d, i + 1)
    }
}

/// JPEG data without the erroneous markers that the Flash exporter inserts: once at
/// the very start, and once between the encoding tables and the image data.
pub open spec fn cleaned(data: Seq<u8>) -> Seq<u8> {
    let d = if is_marker(data, 0) {
        data.skip(4)
    } else {
        data
    };
    match marker_from(d, 0) {
        Some(i) => d.take(i) + d.skip(i + 4),
        None => d,
    }
}

fn marker_at(d: &[u8], i: usize) -> (b: bool)
    ensures
        b == is_marker(d@, i as int),
{
    let n: usize = d.len();
    n >= 4 && i <= n - 4 && d[i] == 0xFF && d[i + 1] == 0xD9 && d[i + 2] == 0xFF && d[i + 3] == 0xD8
}

/// Strips the erroneous end-of-image, start-of-image pair that the Flash JPEG
/// exporter inserts.
pub fn clean_jpeg_data(data: &[u8]) -> (out: Vec<u8>)
    ensures
        out@ == cleaned(data@),
{
    let start: usize = if marker_at(data, 0) {
        4
    } else {
        0
    };
    let ghost d = if is_marker(data@, 0) {
        data@.skip(4)
    } else {
        data@
    };
    let n: usize = data.len();
    let mut out: Vec<u8> = Vec::new();
    let mut i: usize = start;
    assert(d =~= data@.skip(start as int));
    while i < n && !marker_at(data, i)
        invariant
            n == data@.len(),
            start <= i <= n,
            d == data@.skip(start as int),
            out@ == d.take(i - start),
            marker_from(d, 0) == marker_from(d, i - start),
        decreases n - i,
    {
        assert(!is_marker(d, i - start));
        out.push(data[i]);
        i = i + 1;
        assert(out@ =~= d.take(i - start));
        proof {
            if i - 1 - start + 4 > d.len() {
                assert(marker_from(d, i - start) is None);
            }
        }
    }
    if i < n {
        assert(is_marker(d, i - start));
        let ghost k = i - start;
        let mut j: usize = i + 4;
        assert(out@ =~= d.take(k) + d.subrange(k + 4, j - start));
        while j < n
            invariant
                n == data@.len(),
                d == data@.skip(start as int),
                k + 4 <= j - start,
                0 <= k,
                start <= j <= n,
                out@ == d.take(k) + d.subrange(k + 4, j - start),
            decreases n - j,
        {
            out.push(data[j]);
            j = j + 1;
            assert(out@ =~= d.take(k) + d.subrange(k + 4, j - start));
        }
        assert(d.subrange(k + 4, n - start) =~= d.skip(k + 4));
    } else {
        assert(out@ =~= d);
    }
    out
}

/// What a JPEG payload holds. It may also carry another format.
pub open spec fn jpeg_of(data: Seq<u8>) -> Option<Bitmap> {
    match image_codec::decoded(cleaned(data), "jpg"@) {
        Some(b) => Some(b),
        None => image_codec::decoded_any(cleaned(data)),
    }
}

/// Decode a plain JPEG payload. SWF permits these tags to carry PNG or GIF instead,
/// so another format is tried when it is not JPEG.
pub fn decode_jpeg(data: &[u8]) -> (r: Option<Texture>)
    ensures
        match r {
            Some(t) => jpeg_of(data@) == Some(t@),
            None => jpeg_of(data@) is None,
        },
{
    let clean = clean_jpeg_data(data);
    let p = match image_codec::load_with_format(clean.as_slice(), "jpg") {
        Some(p) => Some(p),
        None => image_codec::load(clean.as_slice()),
    };
    match p {
        Some(p) => Some(Texture { width: p.width, height: p.height, rgba: p.rgba }),
        None => None,
    }
}

/// A bitmap with another alpha channel, one byte per pixel; one that is too short
/// is left out.
pub open spec fn alpha_put(b: Bitmap, alpha: Seq<u8>) -> Bitmap {
    if alpha.len() < b.width * b.height {
        b
    } else {
        Bitmap {
            rgba: Seq::new(
                b.rgba.len(),
                |i: int|
                    if i % 4 == 3 && i / 4 < b.width * b.height {
                        alpha[i / 4]
                    } else {
                        b.rgba[i]
                    },
            ),
            ..b
        }
    }
}

/// The texture with another alpha channel.
pub fn with_alpha(texture: Texture, alpha: &[u8]) -> (r: Texture)
    ensures
        r@ == alpha_put(texture@, alpha@),
{
    let mut texture = texture;
    let ghost b = texture@;
    assert(b.width * b.height <= 0xFFFF_FFFF * 0xFFFF_FFFF) by (nonlinear_arith)
        requires
            b.width <= 0xFFFF_FFFF,
            b.height <= 0xFFFF_FFFF,
    ;
    let expected: u64 = texture.width as u64 * texture.height as u64;
    if (alpha.len() as u64) < expected {
        return texture;
    }
    let n: usize = texture.rgba.len();
    let m: usize = n / 4;
    let mut k: usize = 0;
    while k < m && (k as u64) < expected
        invariant
            n == texture.rgba@.len(),
            n == b.rgba.len(),
            m == n / 4,
            expected == b.width * b.height,
            expected <= alpha@.len(),
            texture.width == b.width,
            texture.height == b.height,
            k <= expected,
            k <= m,
            forall|j: int|
                0 <= j < n ==> #[trigger] texture.rgba@[j] == (if j < 4 * k {
                    alpha_put(b, alpha@).rgba[j]
                } else {
                    b.rgba[j]
                }),
        decreases m - k,
    {
        texture.rgba.set(4 * k + 3, alpha[k]);
        k = k + 1;
    }
    assert(texture.rgba@ =~= alpha_put(b, alpha@).rgba);
    texture
}

/// What a JPEG with a separate alpha channel holds.
pub open spec fn jpeg3_of(data: Seq<u8>, alpha_data: Seq<u8>) -> Option<Bitmap> {
    match jpeg_of(data) {
        Some(b) => if alpha_data.len() > 0 && zlib::inflated(alpha_data) is Some {
            Some(alpha_put(b, zlib::inflated(alpha_data)->0))
        } else {
            Some(b)
        },
        None => None,
    }
}

/// Decode a JPEG with its separate zlib-compressed alpha channel (one byte per
/// pixel, row-major).
pub fn decode_jpeg3(tag: &Jpeg) -> (r: Option<Texture>)
    ensures
        match r {
            Some(t) => jpeg3_of(tag@.data, tag@.alpha_data) == Some(t@),
            None => jpeg3_of(tag@.data, tag@.alpha_data) is None,
        },
{
    let texture = match decode_jpeg(tag.data.as_slice()) {
        Some(t) => t,
        None => return None,
    };
    if tag.alpha_data.len() > 0 {
        if let Some(alpha) = zlib::inflate(tag.alpha_data.as_slice()) {
            return Some(with_alpha(texture, alpha.as_slice()));
        }
    }
    Some(texture)
}

/// How the pixels of a lossless image are laid out.
pub struct Layout {
    pub format: PixelFormat,
    pub width: nat,
    pub alpha: bool,
}

impl Layout {
    /// The bytes of a palette entry.
    pub open spec fn entry(self) -> int {
        if self.alpha {
            4
        } else {
            3
        }
    }

    /// The bytes of the palette in front of the pixels.
    pub open spec fn palette(self) -> int {
        match self.format {
            PixelFormat::ColorMap8 { num_colors } => (num_colors + 1) * self.entry(),
            _ => 0,
        }
    }

    /// The bytes of a row that hold pixels.
    pub open spec fn used(self) -> int {
        match self.format {
            PixelFormat::ColorMap8 { .. } => self.width as int,
            PixelFormat::Rgb15 => self.width as int * 2,
            PixelFormat::Rgb32 => self.width as int * 4,
        }
    }

    /// The bytes of a row: a multiple of four.
    pub open spec fn stride(self) -> int {
        (self.used() + 3) / 4 * 4
    }

    /// Where a row starts.
    pub open spec fn row_start(self, y: int) -> int {
        self.palette() + y * self.stride()
    }

    /// Whether a row is all there.
    pub open spec fn has_row(self, raw: Seq<u8>, y: int) -> bool {
        self.row_start(y) + self.used() <= raw.len()
    }
}

/// A channel of five bits in eight.
pub open spec fn expanded(c: int) -> u8 {
    ((c * 255 + 15) / 31) as u8
}

/// A channel without the alpha that it was multiplied by.
pub open spec fn divided(c: u8, a: u8) -> u8 {
    if a == 0 {
        0
    } else if c as int * 255 / a as int > 255 {
        255
    } else {
        (c as int * 255 / a as int) as u8
    }
}

/// A pixel of a palette: red, green, blue, alpha. One that is not there is clear.
pub open spec fn palette_texel(l: Layout, raw: Seq<u8>, index: u8) -> Seq<u8> {
    let at = index * l.entry();
    if at + l.entry() > l.palette() {
        seq![0u8, 0, 0, 0]
    } else if l.alpha {
        seq![raw[at], raw[at + 1], raw[at + 2], raw[at + 3]]
    } else {
        seq![raw[at], raw[at + 1], raw[at + 2], 255]
    }
}

/// A pixel of two bytes.
pub open spec fn texel15(hi: u8, lo: u8) -> Seq<u8> {
    let px = hi * 256 + lo;
    seq![expanded(px / 1024 % 32), expanded(px / 32 % 32), expanded(px % 32), 255]
}

/// A pixel of four bytes: alpha or nothing, red, green, blue.
pub open spec fn texel32(alpha: bool, a: u8, r: u8, g: u8, b: u8) -> Seq<u8> {
    if alpha {
        seq![divided(r, a), divided(g, a), divided(b, a), a]
    } else {
        seq![r, g, b, 255]
    }
}

/// A pixel. Those of a row that is cut off are clear.
pub open spec fn texel(l: Layout, raw: Seq<u8>, x: int, y: int) -> Seq<u8> {
    let row = l.row_start(y);
    if !l.has_row(raw, y) {
        seq![0u8, 0, 0, 0]
    } else {
        match l.format {
            PixelFormat::ColorMap8 { .. } => palette_texel(l, raw, raw[row + x]),
            PixelFormat::Rgb15 => texel15(raw[row + 2 * x], raw[row + 2 * x + 1]),
            PixelFormat::Rgb32 => texel32(
                l.alpha,
                raw[row + 4 * x],
                raw[row + 4 * x + 1],
                raw[row + 4 * x + 2],
                raw[row + 4 * x + 3],
            ),
        }
    }
}

/// The first `x` pixels of a row.
pub open spec fn row_texels(l: Layout, raw: Seq<u8>, x: nat, y: int) -> Seq<u8>
    decreases x,
{
    if x == 0 {
        Seq::empty()
    } else {
        row_texels(l, raw, (x - 1) as nat, y) + texel(l, raw, x - 1, y)
    }
}

/// The first `y` rows.
pub open spec fn texels(l: Layout, raw: Seq<u8>, y: nat) -> Seq<u8>
    decreases y,
{
    if y == 0 {
        Seq::empty()
    } else {
        texels(l, raw, (y - 1) as nat) + row_texels(l, raw, l.width, y - 1)
    }
}

/// The layout of a lossless image. Version 2 has alpha.
pub open spec fn layout_of(tag: LosslessData) -> Layout {
    Layout { format: tag.format, width: tag.width as nat, alpha: tag.version == 2 }
}

/// The image that inflated pixel data holds, where its palette is all there.
pub open spec fn image_of(tag: LosslessData, raw: Seq<u8>) -> Option<Bitmap> {
    if raw.len() < layout_of(tag).palette() {
        None
    } else {
        Some(
            Bitmap {
                width: tag.width as u32,
                height: tag.height as u32,
                rgba: texels(layout_of(tag), raw, tag.height as nat),
            },
        )
    }
}

fn divide(c: u8, a: u8) -> (r: u8)
    ensures
        r == divided(c, a),
{
    if a == 0 {
        0
    } else {
        let q: u32 = c as u32 * 255 / a as u32;
        if q > 255 {
            255
        } else {
            q as u8
        }
    }
}

fn expand(c: u32) -> (r: u8)
    requires
        c < 32,
    ensures
        r == expanded(c as int),
{
    ((c * 255 + 15) / 31) as u8
}

fn push_texel(out: &mut Vec<u8>, r: u8, g: u8, b: u8, a: u8)
    ensures
        final(out)@ == old(out)@ + seq![r, g, b, a],
{
    out.push(r);
    out.push(g);
    out.push(b);
    out.push(a);
    assert(out@ =~= old(out)@ + seq![r, g, b, a]);
}

fn push_indexed(out: &mut Vec<u8>, tag: &Lossless, raw: &[u8], num_colors: u8, index: u8)
    requires
        tag.format == (PixelFormat::ColorMap8 { num_colors }),
        layout_of(tag@).palette() <= raw@.len(),
    ensures
        final(out)@ == old(out)@ + palette_texel(layout_of(tag@), raw@, index),
{
    let ghost l = layout_of(tag@);
    if tag.version == 2 {
        assert(l.palette() == (num_colors + 1) * 4);
        assert(index * l.entry() == index * 4);
        let at: usize = index as usize * 4;
        if index > num_colors {
            push_texel(out, 0, 0, 0, 0);
        } else {
            push_texel(out, raw[at], raw[at + 1], raw[at + 2], raw[at + 3]);
        }
    } else {
        assert(l.palette() == (num_colors + 1) * 3);
        assert(index * l.entry() == index * 3);
        let at: usize = index as usize * 3;
        if index > num_colors {
            push_texel(out, 0, 0, 0, 0);
        } else {
            push_texel(out, raw[at], raw[at + 1], raw[at + 2], 255);
        }
    }
}

fn push_pixel(out: &mut Vec<u8>, tag: &Lossless, raw: &[u8], row: usize, x: usize, y: usize)
    requires
        x < tag.width,
        layout_of(tag@).palette() <= raw@.len(),
        layout_of(tag@).has_row(raw@, y as int),
        row == layout_of(tag@).row_start(y as int),
    ensures
        final(out)@ == old(out)@ + texel(layout_of(tag@), raw@, x as int, y as int),
{
    let n: usize = raw.len();
    match tag.format {
        PixelFormat::ColorMap8 { num_colors } => {
            push_indexed(out, tag, raw, num_colors, raw[row + x]);
        },
        PixelFormat::Rgb15 => {
            let px: u32 = raw[row + 2 * x] as u32 * 256 + raw[row + 2 * x + 1] as u32;
            push_texel(out, expand(px / 1024 % 32), expand(px / 32 % 32), expand(px % 32), 255);
        },
        PixelFormat::Rgb32 => {
            let at: usize = row + 4 * x;
            let (a, r, g, b) = (raw[at], raw[at + 1], raw[at + 2], raw[at + 3]);
            if tag.version == 2 {
                push_texel(out, divide(r, a), divide(g, a), divide(b, a), a);
            } else {
                push_texel(out, r, g, b, 255);
            }
        },
    }
}

/// The image that the inflated pixel data of a lossless image holds, where its
/// palette is all there.
pub fn decode_pixels(tag: &Lossless, raw: &[u8]) -> (r: Option<Texture>)
    ensures
        match r {
            Some(t) => image_of(tag@, raw@) == Some(t@),
            None => image_of(tag@, raw@) is None,
        },
{
    let ghost l = layout_of(tag@);
    let entry: usize = if tag.version == 2 {
        4
    } else {
        3
    };
    let (palette, used): (usize, usize) = match tag.format {
        PixelFormat::ColorMap8 { num_colors } => ((num_colors as usize + 1) * entry, tag.width as usize),
        PixelFormat::Rgb15 => (0, tag.width as usize * 2),
        PixelFormat::Rgb32 => (0, tag.width as usize * 4),
    };
    if raw.len() < palette {
        return None;
    }
    let stride: usize = (used + 3) / 4 * 4;
    let n: usize = raw.len();
    let width: usize = tag.width as usize;
    let height: usize = tag.height as usize;
    let mut rgba: Vec<u8> = Vec::new();
    let mut y: usize = 0;
    assert(0 * l.stride() == 0);
    // The start of the row, or the end where the row starts behind it.
    let mut row: usize = palette;
    while y < height
        invariant
            n == raw@.len(),
            l == layout_of(tag@),
            palette == l.palette(),
            used == l.used(),
            stride == l.stride(),
            stride <= 0x4_0000,
            width == tag.width,
            height == tag.height,
            y <= height,
            palette <= row <= n,
            l.row_start(y as int) <= n ==> row == l.row_start(y as int),
            l.row_start(y as int) > n ==> row == n && used > 0,
            rgba@ == texels(l, raw@, y as nat),
        decreases height - y,
    {
        let there = used <= n - row;
        assert(used > 0 ==> there == l.has_row(raw@, y as int));
        let mut x: usize = 0;
        let ghost before = rgba@;
        assert(rgba@ =~= before + row_texels(l, raw@, 0, y as int));
        while x < width
            invariant
                n == raw@.len(),
                l == layout_of(tag@),
                palette == l.palette(),
                palette <= n,
                width == tag.width,
                x <= width,
                there == l.has_row(raw@, y as int) || width == 0,
                there && width > 0 ==> row == l.row_start(y as int),
                rgba@ == before + row_texels(l, raw@, x as nat, y as int),
            decreases width - x,
        {
            let ghost seen = rgba@;
            if there {
                push_pixel(&mut rgba, tag, raw, row, x, y);
            } else {
                push_texel(&mut rgba, 0, 0, 0, 0);
            }
            assert(rgba@ == seen + texel(l, raw@, x as int, y as int));
            x = x + 1;
            assert(rgba@ =~= before + row_texels(l, raw@, x as nat, y as int));
        }
        proof {
            lemma_mul_is_distributive_add_other_way(l.stride(), y as int, 1);
            assert(l.row_start(y + 1) == l.row_start(y as int) + l.stride());
        }
        row = if stride <= n - row {
            row + stride
        } else {
            n
        };
        y = y + 1;
    }
    Some(Texture { width: tag.width as u32, height: tag.height as u32, rgba })
}

/// Decode a lossless image.
pub fn decode_lossless(tag: &Lossless) -> (r: Option<Texture>)
    ensures
        match zlib::inflated(tag.data@) {
            Some(raw) => match r {
                Some(t) => image_of(tag@, raw) == Some(t@),
                None => image_of(tag@, raw) is None,
            },
            None => r is None,
        },
{
    match zlib::inflate(tag.data.as_slice()) {
        Some(raw) => decode_pixels(tag, raw.as_slice()),
        None => None,
    }
}

/// The layout of the images that textures are embedded as.
pub open spec fn embedded(width: nat) -> Layout {
    Layout { format: PixelFormat::Rgb32, width, alpha: true }
}

/// An embedded texture keeps the alpha of every pixel, and every opaque pixel as
/// it is.
pub proof fn law_embedded_pixel(rgba: Seq<u8>, width: nat, height: nat, x: int, y: int)
    requires
        rgba.len() == 4 * (width * height),
        0 <= x < width,
        0 <= y < height,
    ensures
        ({
            let t = texel(embedded(width), building::premultiplied(rgba), x, y);
            let at = 4 * (y * width + x);
            &&& 0 <= at && at + 4 <= rgba.len()
            &&& t.len() == 4
            &&& t[3] == rgba[at + 3]
            &&& rgba[at + 3] == 255 ==> t == rgba.subrange(at, at + 4)
        }),
{
    let l = embedded(width);
    let raw = building::premultiplied(rgba);
    let i = y * width + x;
    assert(0 <= y * width && y * width + width <= width * height) by (nonlinear_arith)
        requires
            0 <= y < height,
            0 <= width,
    ;
    assert(raw.len() == rgba.len());
    assert(l.stride() == 4 * width);
    assert(y * l.stride() == 4 * (y * width)) by (nonlinear_arith)
        requires
            l.stride() == 4 * width,
    ;
    let at = 4 * i;
    let a = rgba[at + 3];
    assert(at / 4 == i && (at + 1) / 4 == i && (at + 2) / 4 == i && (at + 3) / 4 == i);
    assert(at % 4 == 0 && (at + 1) % 4 == 1 && (at + 2) % 4 == 2 && (at + 3) % 4 == 3);
    assert(raw[at] == a);
    assert(raw[at + 1] == building::multiplied(rgba[at], a));
    assert(raw[at + 2] == building::multiplied(rgba[at + 1], a));
    assert(raw[at + 3] == building::multiplied(rgba[at + 2], a));
    if a == 255 {
        lemma_opaque(rgba[at]);
        lemma_opaque(rgba[at + 1]);
        lemma_opaque(rgba[at + 2]);
        assert(texel(l, raw, x, y) =~= rgba.subrange(at, at + 4));
    }
}

proof fn lemma_opaque(c: u8)
    ensures
        divided(building::multiplied(c, 255), 255) == c,
{
    assert((c * 255 + 127) / 255 == c as int);
}

proof fn lemma_embedded_row(rgba: Seq<u8>, width: nat, height: nat, x: nat, y: int)
    requires
        rgba.len() == 4 * (width * height),
        forall|i: int| 0 <= i < rgba.len() && i % 4 == 3 ==> #[trigger] rgba[i] == 255,
        x <= width,
        0 <= y < height,
    ensures
        0 <= 4 * (y * width),
        4 * (y * width + x) <= rgba.len(),
        row_texels(embedded(width), building::premultiplied(rgba), x, y) == rgba.subrange(
            4 * (y * width),
            4 * (y * width + x),
        ),
    decreases x,
{
    assert(0 <= y * width && y * width + width <= width * height) by (nonlinear_arith)
        requires
            0 <= y < height,
            0 <= width,
    ;
    if x > 0 {
        lemma_embedded_row(rgba, width, height, (x - 1) as nat, y);
        law_embedded_pixel(rgba, width, height, x - 1, y);
        let at = 4 * (y * width + (x - 1));
        assert((at + 3) % 4 == 3);
        assert(rgba.subrange(4 * (y * width), at) + rgba.subrange(at, at + 4) =~= rgba.subrange(
            4 * (y * width),
            4 * (y * width + x),
        ));
    } else {
        assert(rgba.subrange(4 * (y * width), 4 * (y * width)) =~= Seq::empty());
    }
}

proof fn lemma_embedded_rows(rgba: Seq<u8>, width: nat, height: nat, y: nat)
    requires
        rgba.len() == 4 * (width * height),
        forall|i: int| 0 <= i < rgba.len() && i % 4 == 3 ==> #[trigger] rgba[i] == 255,
        y <= height,
    ensures
        4 * (y * width) <= rgba.len(),
        texels(embedded(width), building::premultiplied(rgba), y) == rgba.take(
            (4 * (y * width)) as int,
        ),
    decreases y,
{
    if y > 0 {
        lemma_embedded_rows(rgba, width, height, (y - 1) as nat);
        lemma_embedded_row(rgba, width, height, width, y - 1);
        let at = 4 * ((y - 1) * width);
        lemma_mul_is_distributive_add_other_way(width as int, y - 1, 1);
        assert(((y - 1) as nat) * width == (y - 1) * width);
        assert(rgba.take(at) + rgba.subrange(at, at + 4 * width) =~= rgba.take(at + 4 * width));
    } else {
        assert(rgba.take(0) =~= Seq::empty());
    }
}

/// An opaque texture that is embedded in a SWF file comes back as it was.
pub proof fn law_embedded_roundtrip(rgba: Seq<u8>, width: nat, height: nat)
    requires
        rgba.len() == 4 * (width * height),
        forall|i: int| 0 <= i < rgba.len() && i % 4 == 3 ==> #[trigger] rgba[i] == 255,
    ensures
        texels(embedded(width), building::premultiplied(rgba), height) == rgba,
{
    lemma_embedded_rows(rgba, width, height, height);
    assert(height * width == width * height) by (nonlinear_arith);
    assert(rgba.take(rgba.len() as int) =~= rgba);
}

} // verus!
