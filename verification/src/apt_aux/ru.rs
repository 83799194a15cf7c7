//! The `.ru` rendering-unit geometry text format used by classic
//! C&C/BFME-era games (`<base>_geometry/<index>.ru`).
//!
//! Line-oriented ASCII (CRLF or LF). The first token dispatches:
//! - `c`  - start a new rendering unit
//! - `s s:c0:c1:c2:c3`                             - solid triangles
//! - `s l:width:c0:c1:c2:c3`                       - lines
//! - `s tc:c0:c1:c2:c3:bitmapId:a:b:c:d:tx:ty`     - textured (clipped; `tw` = tiled)
//! - `t f:f:...`  - append float vertex tokens to the current unit (`l` for lines)
//!
//! The six textured-style floats are a 2x3 matrix taking a vertex position to
//! texture pixels: `u = a*x + b*y + tx`, `v = c*x + d*y + ty` (the engine loads
//! them into a column-major 4x4 as cells 0, 4, 1, 5, 12, 13 and divides row 0
//! by the texture width and row 1 by its height).
//!
//! Colors on the line are `b:g:r:a` bytes packed into a u32 as ARGB.
//!
//! Floats are bit patterns here. Their decimal text is read and rendered by the
//! caller: [`RuFormat::float_tokens`] lists the tokens that [`RuFormat::parse`]
//! takes for floats, in order, and [`RuFormat::float_values`] the floats that
//! [`RuFormat::serialize`] needs the text of.
use super::{Error, GeometryError, Trouble};
use crate::apt::types::F32Bits;
use crate::paths;
use crate::text::{self, Span};
use vstd::prelude::*;

verus! {

/// One drawable batch inside a shape: a style plus a vertex list.
#[derive(Debug, Clone, PartialEq)]
pub struct RenderUnit {
    pub style: Style,
    /// (x, y) in pixels. Triangles consume 3 vertices each; lines 2.
    pub vertices: Vec<(F32Bits, F32Bits)>,
}

/// Colors are packed u32 in ARGB order (`a = byte 3 ... b = byte 0`).
#[derive(Debug, Clone, Copy, PartialEq)]
pub enum Style {
    /// Solid-color triangle list.
    Solid { color: u32 },
    /// Textured triangle list. `clipped` selects clamp vs wrap addressing.
    Textured {
        color: u32,
        /// Bitmap character ID (map through the `.dat` table to a texture ID).
        bitmap_character_id: u32,
        /// 2x3 matrix `[a, b, c, d, tx, ty]` taking a vertex position to
        /// texture *pixels*: `u = a*x + b*y + tx`, `v = c*x + d*y + ty`.
        matrix: [F32Bits; 6],
        clipped: bool,
    },
    /// Solid-color line list.
    Line { color: u32, width: F32Bits },
}

/// The geometry of one Shape character.
#[derive(Debug, Clone, PartialEq)]
pub struct ShapeGeometry {
    pub units: Vec<RenderUnit>,
}

/// The counterpart of [`Style`] that contracts speak of.
#[verifier::ext_equal]
pub enum Look {
    Solid { color: u32 },
    Textured { color: u32, bitmap_character_id: u32, matrix: Seq<F32Bits>, clipped: bool },
    Line { color: u32, width: F32Bits },
}

/// The counterpart of [`RenderUnit`] that contracts speak of.
#[verifier::ext_equal]
pub struct Batch {
    pub style: Look,
    pub vertices: Seq<(F32Bits, F32Bits)>,
}

impl View for Style {
    type V = Look;

    open spec fn view(&self) -> Look {
        match self {
            Style::Solid { color } => Look::Solid { color: *color },
            Style::Textured { color, bitmap_character_id, matrix, clipped } => Look::Textured {
                color: *color,
                bitmap_character_id: *bitmap_character_id,
                matrix: matrix@,
                clipped: *clipped,
            },
            Style::Line { color, width } => Look::Line { color: *color, width: *width },
        }
    }
}

impl View for RenderUnit {
    type V = Batch;

    open spec fn view(&self) -> Batch {
        Batch { style: self.style@, vertices: self.vertices@ }
    }
}

/// The counterparts of rendering units.
pub open spec fn batches(v: Seq<RenderUnit>) -> Seq<Batch> {
    Seq::new(v.len(), |i: int| v[i]@)
}

/// Four bytes as one number, the first one lowest.
pub open spec fn packed(c0: u8, c1: u8, c2: u8, c3: u8) -> u32 {
    (c0 + 0x100 * c1 + 0x1_0000 * c2 + 0x100_0000 * c3) as u32
}

pub fn pack_color(c0: u8, c1: u8, c2: u8, c3: u8) -> (c: u32)
    ensures
        c == packed(c0, c1, c2, c3),
{
    c0 as u32 + 0x100 * (c1 as u32) + 0x1_0000 * (c2 as u32) + 0x100_0000 * (c3 as u32)
}

pub fn unpack_color(c: u32) -> (b: (u8, u8, u8, u8))
    ensures
        packed(b.0, b.1, b.2, b.3) == c,
{
    (
        (c % 0x100) as u8,
        (c / 0x100 % 0x100) as u8,
        (c / 0x1_0000 % 0x100) as u8,
        (c / 0x100_0000) as u8,
    )
}

/// Different bytes give different colors, so unpacking undoes packing.
pub proof fn law_colors(a: (u8, u8, u8, u8), b: (u8, u8, u8, u8))
    requires
        packed(a.0, a.1, a.2, a.3) == packed(b.0, b.1, b.2, b.3),
    ensures
        a == b,
{
}

/// The byte that the `i`-th field says.
pub open spec fn color_byte(f: Seq<Seq<char>>, i: int) -> Result<u8, Trouble> {
    if i >= f.len() {
        Err(Trouble::Geometry(GeometryError::MissingColor))
    } else {
        match text::number(f[i], 0xFF) {
            Some(n) => Ok(n as u8),
            None => Err(Trouble::Geometry(GeometryError::BadColor)),
        }
    }
}

/// The color that the four fields from the `i`-th on say.
pub open spec fn color(f: Seq<Seq<char>>, i: int) -> Result<u32, Trouble> {
    match (color_byte(f, i), color_byte(f, i + 1), color_byte(f, i + 2), color_byte(f, i + 3)) {
        (Ok(a), Ok(b), Ok(c), Ok(d)) => Ok(packed(a, b, c, d)),
        (Err(x), _, _, _) => Err(x),
        (_, Err(x), _, _) => Err(x),
        (_, _, Err(x), _) => Err(x),
        (_, _, _, Err(x)) => Err(x),
    }
}

/// The float that stands at `i`, where there is one that can be read.
pub open spec fn float_at(floats: Seq<Option<F32Bits>>, i: int) -> Option<F32Bits> {
    if 0 <= i < floats.len() {
        floats[i]
    } else {
        None
    }
}

/// The first `n` cells of the matrix whose fields start at the sixth one.
pub open spec fn cells(f: Seq<Seq<char>>, floats: Seq<Option<F32Bits>>, n: nat) -> Result<
    Seq<F32Bits>,
    Trouble,
>
    decreases n,
{
    if n == 0 {
        Ok(Seq::empty())
    } else {
        match cells(f, floats, (n - 1) as nat) {
            Err(x) => Err(x),
            Ok(s) => if 6 + (n - 1) >= f.len() {
                Err(Trouble::Geometry(GeometryError::MissingCell))
            } else {
                match float_at(floats, n - 1) {
                    Some(v) => Ok(s.push(v)),
                    None => Err(Trouble::Geometry(GeometryError::BadCell)),
                }
            },
        }
    }
}

/// The bitmap that the fifth field behind the tag names.
pub open spec fn bitmap(f: Seq<Seq<char>>) -> Result<u32, Trouble> {
    if 5 >= f.len() {
        Err(Trouble::Geometry(GeometryError::MissingBitmap))
    } else {
        match text::number(f[5], u32::MAX as nat) {
            Some(n) => Ok(n as u32),
            None => Err(Trouble::Geometry(GeometryError::BadBitmap)),
        }
    }
}

/// The style that the fields say.
pub open spec fn style(f: Seq<Seq<char>>, floats: Seq<Option<F32Bits>>) -> Result<
    Look,
    Trouble,
> {
    if f[0] == seq!['s'] {
        match color(f, 1) {
            Ok(color) => Ok(Look::Solid { color }),
            Err(x) => Err(x),
        }
    } else if f[0] == seq!['l'] {
        if 1 >= f.len() {
            Err(Trouble::Geometry(GeometryError::MissingWidth))
        } else {
            match (float_at(floats, 0), color(f, 2)) {
                (None, _) => Err(Trouble::Geometry(GeometryError::BadWidth)),
                (Some(_), Err(x)) => Err(x),
                (Some(width), Ok(color)) => Ok(Look::Line { color, width }),
            }
        }
    } else if f[0] == seq!['t', 'c'] || f[0] == seq!['t', 'w'] {
        match (color(f, 1), bitmap(f), cells(f, floats, 6)) {
            (Err(x), _, _) => Err(x),
            (Ok(_), Err(x), _) => Err(x),
            (Ok(_), Ok(_), Err(x)) => Err(x),
            (Ok(color), Ok(bitmap_character_id), Ok(matrix)) => Ok(
                Look::Textured {
                    color,
                    bitmap_character_id,
                    matrix,
                    clipped: f[0] == seq!['t', 'c'],
                },
            ),
        }
    } else {
        Err(Trouble::UnknownStyle(f[0]))
    }
}

/// The fields of a style that are floats.
pub open spec fn style_tokens(f: Seq<Seq<char>>) -> Seq<Seq<char>> {
    if f[0] == seq!['l'] {
        if f.len() > 1 {
            seq![f[1]]
        } else {
            Seq::empty()
        }
    } else if f[0] == seq!['t', 'c'] || f[0] == seq!['t', 'w'] {
        if f.len() > 12 {
            f.subrange(6, 12)
        } else if f.len() > 6 {
            f.skip(6)
        } else {
            Seq::empty()
        }
    } else {
        Seq::empty()
    }
}

/// Where the first word ends.
pub open spec fn word_end(s: Seq<char>) -> int
    decreases s.len(),
{
    if s.len() == 0 || text::is_space(s[0]) {
        0
    } else {
        1 + word_end(s.skip(1))
    }
}

/// The first word of a line without white space at its start.
pub open spec fn word(s: Seq<char>) -> Seq<char> {
    s.take(word_end(s))
}

/// What follows the first word.
pub open spec fn behind_word(s: Seq<char>) -> Seq<char> {
    text::trim_start(s.skip(word_end(s)))
}

/// The pieces that are not empty.
pub open spec fn filled(s: Seq<Seq<char>>) -> Seq<Seq<char>>
    decreases s.len(),
{
    if s.len() == 0 {
        Seq::empty()
    } else if s[s.len() - 1].len() == 0 {
        filled(s.take(s.len() - 1))
    } else {
        filled(s.take(s.len() - 1)).push(s[s.len() - 1])
    }
}

/// A unit being read: its style and its coordinates.
#[verifier::ext_equal]
pub struct Draft {
    pub style: Look,
    pub coords: Seq<F32Bits>,
}

/// What has been read, and the floats that are left.
#[verifier::ext_equal]
pub struct Reading {
    pub units: Seq<Draft>,
    pub floats: Seq<Option<F32Bits>>,
}

/// The coordinates `c` with the first `n` floats behind them.
pub open spec fn more_coords(c: Seq<F32Bits>, floats: Seq<Option<F32Bits>>, n: nat) -> Result<
    Seq<F32Bits>,
    Trouble,
>
    decreases n,
{
    if n == 0 {
        Ok(c)
    } else {
        match more_coords(c, floats, (n - 1) as nat) {
            Err(x) => Err(x),
            Ok(s) => match float_at(floats, n - 1) {
                Some(v) => Ok(s.push(v)),
                None => Err(Trouble::Geometry(GeometryError::BadVertex)),
            },
        }
    }
}

/// What has been read after one more line.
pub open spec fn with_line(r: Reading, line: Seq<char>) -> Result<Reading, Trouble> {
    let t = text::trim(line);
    let rest = behind_word(t);
    let last = r.units.len() - 1;
    if t.len() == 0 {
        Ok(r)
    } else if word(t) == seq!['c'] {
        Ok(
            Reading {
                units: r.units.push(Draft { style: Look::Solid { color: 0 }, coords: Seq::empty() }),
                ..r
            },
        )
    } else if word(t) == seq!['s'] {
        if rest.len() == 0 {
            Err(Trouble::Geometry(GeometryError::MissingStyle))
        } else {
            let f = text::split(word(rest), ':');
            match style(f, r.floats) {
                Err(x) => Err(x),
                Ok(look) => if last < 0 {
                    Err(Trouble::Geometry(GeometryError::StyleBeforeUnit))
                } else {
                    Ok(
                        Reading {
                            units: r.units.update(last, Draft { style: look, ..r.units[last] }),
                            floats: r.floats.skip(style_tokens(f).len() as int),
                        },
                    )
                },
            }
        }
    } else if word(t) == seq!['t'] || word(t) == seq!['l'] {
        let n = filled(text::split(word(rest), ':')).len();
        if last < 0 {
            Err(Trouble::Geometry(GeometryError::VertexBeforeUnit))
        } else {
            match more_coords(r.units[last].coords, r.floats, n) {
                Err(x) => Err(x),
                Ok(coords) => Ok(
                    Reading {
                        units: r.units.update(last, Draft { coords, ..r.units[last] }),
                        floats: r.floats.skip(n as int),
                    },
                ),
            }
        }
    } else {
        Ok(r)
    }
}

/// What has been read after more lines.
pub open spec fn with_lines(r: Reading, lines: Seq<Seq<char>>) -> Result<Reading, Trouble>
    decreases lines.len(),
{
    if lines.len() == 0 {
        Ok(r)
    } else {
        match with_line(r, lines[0]) {
            Err(x) => Err(x),
            Ok(s) => with_lines(s, lines.skip(1)),
        }
    }
}

/// Coordinates two by two; an odd one at the end is dropped.
pub open spec fn pairs(c: Seq<F32Bits>) -> Seq<(F32Bits, F32Bits)> {
    Seq::new(c.len() / 2, |i: int| (c[2 * i], c[2 * i + 1]))
}

/// The units that drafts become.
pub open spec fn finished(d: Seq<Draft>) -> Seq<Batch> {
    Seq::new(d.len(), |i: int| Batch { style: d[i].style, vertices: pairs(d[i].coords) })
}

/// The geometry that a text says.
pub open spec fn geometry_of(s: Seq<char>, floats: Seq<Option<F32Bits>>) -> Result<
    Seq<Batch>,
    Trouble,
> {
    match with_lines(Reading { units: Seq::empty(), floats }, text::split(s, '\n')) {
        Err(x) => Err(x),
        Ok(r) => Ok(finished(r.units)),
    }
}

/// The tokens of a line that are taken for floats. Vertices before any unit are
/// refused before they are read.
pub open spec fn line_tokens(line: Seq<char>, in_unit: bool) -> Seq<Seq<char>> {
    let t = text::trim(line);
    let rest = behind_word(t);
    if t.len() == 0 {
        Seq::empty()
    } else if word(t) == seq!['s'] && rest.len() > 0 {
        style_tokens(text::split(word(rest), ':'))
    } else if in_unit && (word(t) == seq!['t'] || word(t) == seq!['l']) {
        filled(text::split(word(rest), ':'))
    } else {
        Seq::empty()
    }
}

/// Whether a line starts a unit.
pub open spec fn starts_unit(line: Seq<char>) -> bool {
    let t = text::trim(line);
    t.len() > 0 && word(t) == seq!['c']
}

/// The tokens of the lines that are taken for floats.
pub open spec fn tokens(lines: Seq<Seq<char>>, in_unit: bool) -> Seq<Seq<char>>
    decreases lines.len(),
{
    if lines.len() == 0 {
        Seq::empty()
    } else {
        line_tokens(lines[0], in_unit) + tokens(
            lines.skip(1),
            in_unit || starts_unit(lines[0]),
        )
    }
}

/// Parser/serializer for the classic `.ru` format.
#[derive(Debug, Clone, Copy)]
pub struct RuFormat;

/// The first word ends at the first white space.
pub proof fn lemma_word_end(s: Seq<char>, k: int)
    requires
        0 <= k <= s.len(),
        forall|i: int| 0 <= i < k ==> !text::is_space(#[trigger] s[i]),
        k < s.len() ==> text::is_space(s[k]),
    ensures
        word_end(s) == k,
    decreases s.len(),
{
    if k > 0 {
        let t = s.skip(1);
        assert forall|i: int| 0 <= i < k - 1 implies !text::is_space(#[trigger] t[i]) by {
            assert(t[i] == s[i + 1]);
        }
        lemma_word_end(t, k - 1);
    }
}

/// The first word of a part.
fn first_word(v: &Vec<char>, r: Span) -> (w: Span)
    requires
        text::within(v@, r),
    ensures
        w.0 == r.0,
        w.0 <= w.1 <= r.1,
        text::part(v@, w) == word(text::part(v@, r)),
        w.1 - r.0 == word_end(text::part(v@, r)),
{
    let mut k: usize = r.0;
    while k < r.1 && !text::space(v[k])
        invariant
            r.0 <= k <= r.1 <= v@.len(),
            forall|i: int| r.0 <= i < k ==> !text::is_space(#[trigger] v@[i]),
        decreases r.1 - k,
    {
        k = k + 1;
    }
    proof {
        lemma_word_end(text::part(v@, r), k - r.0);
        assert(text::part(v@, (r.0, k)) =~= text::part(v@, r).take(k - r.0));
    }
    (r.0, k)
}

/// Whether a part is the one character `a`.
fn is_one(v: &Vec<char>, r: Span, a: char) -> (b: bool)
    requires
        text::within(v@, r),
    ensures
        b == (text::part(v@, r) == seq![a]),
{
    let b = r.1 - r.0 == 1 && v[r.0] == a;
    proof {
        let s = text::part(v@, r);
        let t = seq![a];
        assert(t.len() == 1 && t[0] == a);
        if b {
            assert(s =~= t);
        }
    }
    b
}

/// Whether a part is the two characters `a` and `b`.
fn is_two(v: &Vec<char>, r: Span, a: char, b: char) -> (x: bool)
    requires
        text::within(v@, r),
    ensures
        x == (text::part(v@, r) == seq![a, b]),
{
    let x = r.1 - r.0 == 2 && v[r.0] == a && v[r.0 + 1] == b;
    proof {
        let s = text::part(v@, r);
        let t = seq![a, b];
        assert(t.len() == 2 && t[0] == a && t[1] == b);
        if x {
            assert(s =~= t);
        }
    }
    x
}

fn parse_byte(v: &Vec<char>, f: &Vec<Span>, i: usize) -> (r: Result<u8, Error>)
    requires
        forall|k: int| 0 <= k < f@.len() ==> text::within(v@, #[trigger] f@[k]),
    ensures
        match r {
            Ok(x) => color_byte(text::parts(v@, f@), i as int) == Ok::<u8, Trouble>(x),
            Err(e) => color_byte(text::parts(v@, f@), i as int) == Err::<u8, Trouble>(e@),
        },
{
    if i >= f.len() {
        return Err(Error::Geometry(GeometryError::MissingColor));
    }
    assert(text::within(v@, f@[i as int]));
    match text::read_number(v, f[i], 0xFF) {
        Some(n) => Ok(n as u8),
        None => Err(Error::Geometry(GeometryError::BadColor)),
    }
}

fn parse_color(v: &Vec<char>, f: &Vec<Span>, i: usize) -> (r: Result<u32, Error>)
    requires
        forall|k: int| 0 <= k < f@.len() ==> text::within(v@, #[trigger] f@[k]),
        i <= 2,
    ensures
        match r {
            Ok(x) => color(text::parts(v@, f@), i as int) == Ok::<u32, Trouble>(x),
            Err(e) => color(text::parts(v@, f@), i as int) == Err::<u32, Trouble>(e@),
        },
{
    let c0: u8 = parse_byte(v, f, i)?;
    let c1: u8 = parse_byte(v, f, i + 1)?;
    let c2: u8 = parse_byte(v, f, i + 2)?;
    let c3: u8 = parse_byte(v, f, i + 3)?;
    Ok(pack_color(c0, c1, c2, c3))
}

/// The float that stands at `i`.
fn float(floats: &[Option<F32Bits>], i: usize) -> (r: Option<F32Bits>)
    ensures
        r == float_at(floats@, i as int),
{
    if i < floats.len() {
        floats[i]
    } else {
        None
    }
}

fn parse_bitmap(v: &Vec<char>, f: &Vec<Span>) -> (r: Result<u32, Error>)
    requires
        forall|k: int| 0 <= k < f@.len() ==> text::within(v@, #[trigger] f@[k]),
    ensures
        match r {
            Ok(x) => bitmap(text::parts(v@, f@)) == Ok::<u32, Trouble>(x),
            Err(e) => bitmap(text::parts(v@, f@)) == Err::<u32, Trouble>(e@),
        },
{
    if 5 >= f.len() {
        return Err(Error::Geometry(GeometryError::MissingBitmap));
    }
    assert(text::within(v@, f@[5]));
    match text::read_number(v, f[5], u32::MAX) {
        Some(n) => Ok(n),
        None => Err(Error::Geometry(GeometryError::BadBitmap)),
    }
}

proof fn lemma_cells_sticky(f: Seq<Seq<char>>, floats: Seq<Option<F32Bits>>, i: nat, n: nat)
    requires
        i <= n,
        cells(f, floats, i) is Err,
    ensures
        cells(f, floats, n) == cells(f, floats, i),
    decreases n - i,
{
    if i < n {
        lemma_cells_sticky(f, floats, i, (n - 1) as nat);
    }
}

fn parse_matrix(v: &Vec<char>, f: &Vec<Span>, floats: &[Option<F32Bits>]) -> (r: Result<
    [F32Bits; 6],
    Error,
>)
    ensures
        match r {
            Ok(x) => cells(text::parts(v@, f@), floats@, 6) == Ok::<
                Seq<F32Bits>,
                Trouble,
            >(x@),
            Err(e) => cells(text::parts(v@, f@), floats@, 6) == Err::<
                Seq<F32Bits>,
                Trouble,
            >(e@),
        },
{
    let ghost fields = text::parts(v@, f@);
    let mut matrix: [F32Bits; 6] = [0; 6];
    let mut i: usize = 0;
    assert(matrix@.take(0) =~= Seq::<F32Bits>::empty());
    while i < 6
        invariant
            i <= 6,
            fields == text::parts(v@, f@),
            cells(fields, floats@, i as nat) == Ok::<Seq<F32Bits>, Trouble>(
                matrix@.take(i as int),
            ),
        decreases 6 - i,
    {
        if 6 + i >= f.len() {
            proof {
                lemma_cells_sticky(fields, floats@, (i + 1) as nat, 6);
            }
            return Err(Error::Geometry(GeometryError::MissingCell));
        }
        match float(floats, i) {
            Some(x) => {
                let ghost before = matrix@;
                matrix[i] = x;
                assert(matrix@.take(i + 1) =~= before.take(i as int).push(x));
            },
            None => {
                proof {
                    lemma_cells_sticky(fields, floats@, (i + 1) as nat, 6);
                }
                return Err(Error::Geometry(GeometryError::BadCell));
            },
        }
        i = i + 1;
    }
    assert(matrix@.take(6) =~= matrix@);
    Ok(matrix)
}

/// The style that the fields say, and how many floats it takes.
fn parse_style(v: &Vec<char>, f: &Vec<Span>, floats: &[Option<F32Bits>]) -> (r: Result<
    (Style, usize),
    Error,
>)
    requires
        f@.len() > 0,
        forall|k: int| 0 <= k < f@.len() ==> text::within(v@, #[trigger] f@[k]),
    ensures
        match r {
            Ok((x, n)) => {
                &&& style(text::parts(v@, f@), floats@) == Ok::<Look, Trouble>(x@)
                &&& n == style_tokens(text::parts(v@, f@)).len()
                &&& n <= floats@.len()
            },
            Err(e) => style(text::parts(v@, f@), floats@) == Err::<Look, Trouble>(
                e@,
            ),
        },
{
    let ghost fields = text::parts(v@, f@);
    assert(text::within(v@, f@[0]));
    assert(fields[0] == text::part(v@, f@[0]));
    let is_clipped = is_two(v, f[0], 't', 'c');
    proof {
        let a = seq!['s'];
        let b = seq!['l'];
        let c = seq!['t', 'c'];
        let d = seq!['t', 'w'];
        assert(a[0] == 's' && b[0] == 'l' && c[1] == 'c' && d[1] == 'w' && a.len() == 1 && c.len()
            == 2);
    }
    if is_one(v, f[0], 's') {
        let color: u32 = parse_color(v, f, 1)?;
        Ok((Style::Solid { color }, 0))
    } else if is_one(v, f[0], 'l') {
        if 1 >= f.len() {
            return Err(Error::Geometry(GeometryError::MissingWidth));
        }
        match float(floats, 0) {
            Some(width) => {
                let color: u32 = parse_color(v, f, 2)?;
                Ok((Style::Line { color, width }, 1))
            },
            None => Err(Error::Geometry(GeometryError::BadWidth)),
        }
    } else if is_clipped || is_two(v, f[0], 't', 'w') {
        let color: u32 = parse_color(v, f, 1)?;
        let bitmap_character_id: u32 = parse_bitmap(v, f)?;
        let matrix = parse_matrix(v, f, floats)?;
        proof {
            lemma_cells_need(fields, floats@);
        }
        Ok((Style::Textured { color, bitmap_character_id, matrix, clipped: is_clipped }, 6))
    } else {
        Err(Error::UnknownStyle(text::from_chars(v, f[0].0, f[0].1)))
    }
}

proof fn lemma_cells_need(f: Seq<Seq<char>>, floats: Seq<Option<F32Bits>>)
    requires
        cells(f, floats, 6) is Ok,
    ensures
        f.len() >= 12,
        floats.len() >= 6,
{
    reveal_with_fuel(cells, 2);
}

/// A unit being read.
struct UnitDraft {
    style: Style,
    coords: Vec<F32Bits>,
}

/// The counterparts of units being read.
spec fn drafts(v: Seq<UnitDraft>) -> Seq<Draft> {
    Seq::new(v.len(), |i: int| Draft { style: v[i].style@, coords: v[i].coords@ })
}

proof fn lemma_coords_sticky(c: Seq<F32Bits>, floats: Seq<Option<F32Bits>>, i: nat, n: nat)
    requires
        i <= n,
        more_coords(c, floats, i) is Err,
    ensures
        more_coords(c, floats, n) == more_coords(c, floats, i),
    decreases n - i,
{
    if i < n {
        lemma_coords_sticky(c, floats, i, (n - 1) as nat);
    }
}

/// How many of the pieces are not empty.
fn count_filled(v: &Vec<char>, f: &Vec<Span>) -> (n: usize)
    requires
        forall|k: int| 0 <= k < f@.len() ==> text::within(v@, #[trigger] f@[k]),
    ensures
        n == filled(text::parts(v@, f@)).len(),
        n <= f@.len(),
{
    let ghost p = text::parts(v@, f@);
    let mut n: usize = 0;
    let mut i: usize = 0;
    assert(p.take(0) =~= Seq::<Seq<char>>::empty());
    while i < f.len()
        invariant
            i <= f@.len(),
            n <= i,
            p == text::parts(v@, f@),
            forall|k: int| 0 <= k < f@.len() ==> text::within(v@, #[trigger] f@[k]),
            n == filled(p.take(i as int)).len(),
        decreases f@.len() - i,
    {
        assert(text::within(v@, f@[i as int]));
        proof {
            let t = p.take(i + 1);
            assert(t.take(t.len() - 1) =~= p.take(i as int));
            assert(t[t.len() - 1] == text::part(v@, f@[i as int]));
        }
        if f[i].0 < f[i].1 {
            n = n + 1;
        }
        i = i + 1;
    }
    assert(p.take(i as int) =~= p);
    n
}

/// The coordinates with the first `n` floats behind them.
fn parse_coords(coords: &mut Vec<F32Bits>, floats: &[Option<F32Bits>], n: usize) -> (r: Result<
    (),
    Error,
>)
    ensures
        match r {
            Ok(_) => n <= floats@.len() && more_coords(old(coords)@, floats@, n as nat) == Ok::<
                Seq<F32Bits>,
                Trouble,
            >(final(coords)@),
            Err(e) => more_coords(old(coords)@, floats@, n as nat) == Err::<
                Seq<F32Bits>,
                Trouble,
            >(e@),
        },
{
    let ghost c = coords@;
    let mut i: usize = 0;
    while i < n
        invariant
            i <= n,
            i <= floats@.len(),
            c == old(coords)@,
            more_coords(c, floats@, i as nat) == Ok::<Seq<F32Bits>, Trouble>(coords@),
        decreases n - i,
    {
        match float(floats, i) {
            Some(x) => {
                coords.push(x);
            },
            None => {
                proof {
                    lemma_coords_sticky(c, floats@, (i + 1) as nat, n as nat);
                }
                return Err(Error::Geometry(GeometryError::BadVertex));
            },
        }
        i = i + 1;
    }
    Ok(())
}

/// Reads one more line; returns how many floats it took.
fn parse_line(
    v: &Vec<char>,
    line: Span,
    floats: &[Option<F32Bits>],
    units: &mut Vec<UnitDraft>,
) -> (r: Result<usize, Error>)
    requires
        text::within(v@, line),
    ensures
        ({
            let before = Reading { units: drafts(old(units)@), floats: floats@ };
            let got = with_line(before, text::part(v@, line));
            match r {
                Ok(n) => n <= floats@.len() && got == Ok::<Reading, Trouble>(
                    Reading { units: drafts(final(units)@), floats: floats@.skip(n as int) },
                ),
                Err(e) => got == Err::<Reading, Trouble>(e@),
            }
        }),
{
    let t: Span = text::trim_span(v, line);
    let ghost s = text::part(v@, t);
    let ghost was = units@;
    assert(floats@.skip(0) =~= floats@);
    if t.0 == t.1 {
        return Ok(0);
    }
    let w: Span = first_word(v, t);
    assert(s.skip(w.1 - t.0) =~= text::part(v@, (w.1, t.1)));
    let rest: Span = text::skip_space(v, (w.1, t.1));
    let arg: Span = first_word(v, rest);
    proof {
        let a = seq!['c'];
        let b = seq!['s'];
        let c = seq!['t'];
        let d = seq!['l'];
        assert(a[0] == 'c' && b[0] == 's' && c[0] == 't' && d[0] == 'l');
    }
    if is_one(v, w, 'c') {
        units.push(UnitDraft { style: Style::Solid { color: 0 }, coords: Vec::new() });
        assert(drafts(units@) =~= drafts(was).push(
            Draft { style: Look::Solid { color: 0 }, coords: Seq::empty() },
        ));
        return Ok(0);
    }
    if is_one(v, w, 's') {
        if rest.0 == rest.1 {
            return Err(Error::Geometry(GeometryError::MissingStyle));
        }
        let f = text::split_spans(v, arg, ':');
        let (style, n) = parse_style(v, &f, floats)?;
        let count: usize = units.len();
        if count == 0 {
            return Err(Error::Geometry(GeometryError::StyleBeforeUnit));
        }
        units[count - 1].style = style;
        assert(drafts(units@) =~= drafts(was).update(
            count - 1,
            Draft { style: style@, ..drafts(was)[count - 1] },
        ));
        return Ok(n);
    }
    if is_one(v, w, 't') || is_one(v, w, 'l') {
        let count: usize = units.len();
        if count == 0 {
            return Err(Error::Geometry(GeometryError::VertexBeforeUnit));
        }
        let f = text::split_spans(v, arg, ':');
        let n: usize = count_filled(v, &f);
        parse_coords(&mut units[count - 1].coords, floats, n)?;
        assert(drafts(units@) =~= drafts(was).update(
            count - 1,
            Draft { coords: units@[count - 1].coords@, ..drafts(was)[count - 1] },
        ));
        return Ok(n);
    }
    Ok(0)
}

/// Coordinates two by two.
fn pair_up(c: &Vec<F32Bits>) -> (p: Vec<(F32Bits, F32Bits)>)
    ensures
        p@ == pairs(c@),
{
    let len: usize = c.len();
    let n: usize = len / 2;
    let mut p: Vec<(F32Bits, F32Bits)> = Vec::new();
    let mut i: usize = 0;
    while i < n
        invariant
            i <= n,
            len == c@.len(),
            n == len / 2,
            p@ == pairs(c@).take(i as int),
        decreases n - i,
    {
        assert(2 * i + 1 < len);
        p.push((c[2 * i], c[2 * i + 1]));
        assert(pairs(c@).take(i + 1) =~= pairs(c@).take(i as int).push(pairs(c@)[i as int]));
        i = i + 1;
    }
    assert(pairs(c@).take(i as int) =~= pairs(c@));
    p
}

/// The units that drafts become.
fn finish(units: &Vec<UnitDraft>) -> (out: Vec<RenderUnit>)
    ensures
        batches(out@) == finished(drafts(units@)),
{
    let ghost all = finished(drafts(units@));
    let mut out: Vec<RenderUnit> = Vec::new();
    let mut i: usize = 0;
    assert(batches(out@) =~= all.take(0));
    while i < units.len()
        invariant
            i <= units@.len(),
            out@.len() == i,
            all == finished(drafts(units@)),
            batches(out@) == all.take(i as int),
        decreases units@.len() - i,
    {
        let ghost before = out@;
        let vertices = pair_up(&units[i].coords);
        out.push(RenderUnit { style: units[i].style, vertices });
        proof {
            assert(batches(out@) =~= batches(before).push(out@[i as int]@));
            assert(all.take(i + 1) =~= all.take(i as int).push(all[i as int]));
        }
        i = i + 1;
    }
    assert(all.take(i as int) =~= all);
    out
}

impl RuFormat {
    /// Reads geometry from bytes. `floats` holds what the float tokens say, in
    /// order; `None` stands for one that says no float.
    pub fn parse(&self, data: &[u8], floats: &[Option<F32Bits>]) -> (r: Result<
        ShapeGeometry,
        Error,
    >)
        ensures
            match r {
                Ok(g) => geometry_of(text::lossy(data@), floats@) == Ok::<Seq<Batch>, Trouble>(
                    batches(g.units@),
                ),
                Err(e) => geometry_of(text::lossy(data@), floats@) == Err::<Seq<Batch>, Trouble>(
                    e@,
                ),
            },
    {
        let s = text::from_utf8_lossy(data);
        self.parse_text(s.as_str(), floats)
    }

    /// Reads geometry from text.
    pub fn parse_text(&self, s: &str, floats: &[Option<F32Bits>]) -> (r: Result<
        ShapeGeometry,
        Error,
    >)
        ensures
            match r {
                Ok(g) => geometry_of(s@, floats@) == Ok::<Seq<Batch>, Trouble>(batches(g.units@)),
                Err(e) => geometry_of(s@, floats@) == Err::<Seq<Batch>, Trouble>(e@),
            },
    {
        let v = text::to_chars(s);
        let n: usize = v.len();
        assert(text::part(v@, (0usize, n)) =~= s@);
        let lines = text::split_spans(&v, (0, n), '\n');
        let ghost all = text::split(s@, '\n');
        let ghost start = Reading { units: Seq::empty(), floats: floats@ };
        let mut left = floats;
        let mut units: Vec<UnitDraft> = Vec::new();
        let mut i: usize = 0;
        assert(all.skip(0) =~= all);
        assert(drafts(units@) =~= Seq::<Draft>::empty());
        while i < lines.len()
            invariant
                i <= lines@.len(),
                all == text::parts(v@, lines@),
                all == text::split(s@, '\n'),
                start == (Reading { units: Seq::empty(), floats: floats@ }),
                forall|k: int| 0 <= k < lines@.len() ==> text::within(v@, #[trigger] lines@[k]),
                with_lines(
                    Reading { units: drafts(units@), floats: left@ },
                    all.skip(i as int),
                ) == with_lines(start, all),
            decreases lines@.len() - i,
        {
            assert(text::within(v@, lines@[i as int]));
            proof {
                let rest = all.skip(i as int);
                assert(rest[0] == text::part(v@, lines@[i as int]));
                assert(rest.skip(1) =~= all.skip(i + 1));
            }
            let took: usize = parse_line(&v, lines[i], left, &mut units)?;
            assert(left@.skip(took as int) =~= left@.subrange(took as int, left@.len() as int));
            left = vstd::slice::slice_subrange(left, took, left.len());
            i = i + 1;
        }
        assert(all.skip(i as int) =~= Seq::<Seq<char>>::empty());
        Ok(ShapeGeometry { units: finish(&units) })
    }
}

/// The counterparts of a list of texts.
pub open spec fn names(v: Seq<String>) -> Seq<Seq<char>> {
    Seq::new(v.len(), |i: int| v[i]@)
}

/// Appends the texts of some fields.
fn push_fields(out: &mut Vec<String>, v: &Vec<char>, f: &Vec<Span>, from: usize, to: usize)
    requires
        forall|k: int| 0 <= k < f@.len() ==> text::within(v@, #[trigger] f@[k]),
        from <= to <= f@.len(),
    ensures
        names(final(out)@) == names(old(out)@) + text::parts(v@, f@).subrange(
            from as int,
            to as int,
        ),
{
    let ghost p = text::parts(v@, f@);
    let ghost before = names(out@);
    let mut i: usize = from;
    assert(before + p.subrange(from as int, from as int) =~= before);
    while i < to
        invariant
            from <= i <= to <= f@.len(),
            p == text::parts(v@, f@),
            forall|k: int| 0 <= k < f@.len() ==> text::within(v@, #[trigger] f@[k]),
            names(out@) == before + p.subrange(from as int, i as int),
        decreases to - i,
    {
        assert(text::within(v@, f@[i as int]));
        let ghost outs = out@;
        out.push(text::from_chars(v, f[i].0, f[i].1));
        proof {
            assert(names(out@) =~= names(outs).push(p[i as int]));
            assert(before + p.subrange(from as int, i + 1) =~= (before + p.subrange(
                from as int,
                i as int,
            )).push(p[i as int]));
        }
        i = i + 1;
    }
}

/// Appends the texts of the fields that are not empty.
fn push_filled(out: &mut Vec<String>, v: &Vec<char>, f: &Vec<Span>)
    requires
        forall|k: int| 0 <= k < f@.len() ==> text::within(v@, #[trigger] f@[k]),
    ensures
        names(final(out)@) == names(old(out)@) + filled(text::parts(v@, f@)),
{
    let ghost p = text::parts(v@, f@);
    let ghost before = names(out@);
    let mut i: usize = 0;
    assert(p.take(0) =~= Seq::<Seq<char>>::empty());
    assert(before + filled(p.take(0)) =~= before);
    while i < f.len()
        invariant
            i <= f@.len(),
            p == text::parts(v@, f@),
            forall|k: int| 0 <= k < f@.len() ==> text::within(v@, #[trigger] f@[k]),
            names(out@) == before + filled(p.take(i as int)),
        decreases f@.len() - i,
    {
        assert(text::within(v@, f@[i as int]));
        let ghost outs = out@;
        proof {
            let t = p.take(i + 1);
            assert(t.take(t.len() - 1) =~= p.take(i as int));
            assert(t[t.len() - 1] == text::part(v@, f@[i as int]));
        }
        if f[i].0 < f[i].1 {
            out.push(text::from_chars(v, f[i].0, f[i].1));
            proof {
                assert(names(out@) =~= names(outs).push(p[i as int]));
                assert(names(out@) =~= before + filled(p.take(i + 1)));
            }
        }
        i = i + 1;
    }
    assert(p.take(i as int) =~= p);
}

/// Appends the tokens of a line that are taken for floats; returns whether a unit
/// has been started.
fn push_line_tokens(out: &mut Vec<String>, v: &Vec<char>, line: Span, in_unit: bool) -> (after: bool)
    requires
        text::within(v@, line),
    ensures
        names(final(out)@) == names(old(out)@) + line_tokens(text::part(v@, line), in_unit),
        after == (in_unit || starts_unit(text::part(v@, line))),
{
    let t: Span = text::trim_span(v, line);
    let ghost s = text::part(v@, t);
    let ghost none = Seq::<Seq<char>>::empty();
    assert(names(out@) + none =~= names(out@));
    if t.0 == t.1 {
        return in_unit;
    }
    let w: Span = first_word(v, t);
    assert(s.skip(w.1 - t.0) =~= text::part(v@, (w.1, t.1)));
    let rest: Span = text::skip_space(v, (w.1, t.1));
    let arg: Span = first_word(v, rest);
    proof {
        let a = seq!['c'];
        let b = seq!['s'];
        let c = seq!['t'];
        let d = seq!['l'];
        assert(a[0] == 'c' && b[0] == 's' && c[0] == 't' && d[0] == 'l');
    }
    let starts = is_one(v, w, 'c');
    if is_one(v, w, 's') && rest.0 < rest.1 {
        let f = text::split_spans(v, arg, ':');
        let ghost fields = text::parts(v@, f@);
        assert(text::within(v@, f@[0]));
        assert(fields[0] == text::part(v@, f@[0]));
        proof {
            let a = seq!['l'];
            let b = seq!['t', 'c'];
            let c = seq!['t', 'w'];
            assert(a.len() == 1 && b.len() == 2 && c.len() == 2);
        }
        if is_one(v, f[0], 'l') {
            if f.len() > 1 {
                push_fields(out, v, &f, 1, 2);
                assert(fields.subrange(1, 2) =~= seq![fields[1]]);
            }
        } else if is_two(v, f[0], 't', 'c') || is_two(v, f[0], 't', 'w') {
            if f.len() > 12 {
                push_fields(out, v, &f, 6, 12);
            } else if f.len() > 6 {
                push_fields(out, v, &f, 6, f.len());
                assert(fields.subrange(6, f@.len() as int) =~= fields.skip(6));
            }
        }
    } else if in_unit && (is_one(v, w, 't') || is_one(v, w, 'l')) {
        let f = text::split_spans(v, arg, ':');
        push_filled(out, v, &f);
    }
    in_unit || starts
}

impl RuFormat {
    /// The tokens that [`RuFormat::parse`] takes for floats, in order.
    pub fn float_tokens(&self, data: &[u8]) -> (out: Vec<String>)
        ensures
            names(out@) == tokens(text::split(text::lossy(data@), '\n'), false),
    {
        let s = text::from_utf8_lossy(data);
        self.float_tokens_text(s.as_str())
    }

    /// The tokens that [`RuFormat::parse_text`] takes for floats, in order.
    pub fn float_tokens_text(&self, s: &str) -> (out: Vec<String>)
        ensures
            names(out@) == tokens(text::split(s@, '\n'), false),
    {
        let v = text::to_chars(s);
        let n: usize = v.len();
        assert(text::part(v@, (0usize, n)) =~= s@);
        let lines = text::split_spans(&v, (0, n), '\n');
        let ghost all = text::split(s@, '\n');
        let mut out: Vec<String> = Vec::new();
        let mut in_unit = false;
        let mut i: usize = 0;
        assert(all.skip(0) =~= all);
        assert(names(out@) + tokens(all, false) =~= tokens(all, false));
        while i < lines.len()
            invariant
                i <= lines@.len(),
                all == text::parts(v@, lines@),
                forall|k: int| 0 <= k < lines@.len() ==> text::within(v@, #[trigger] lines@[k]),
                names(out@) + tokens(all.skip(i as int), in_unit) == tokens(all, false),
            decreases lines@.len() - i,
        {
            assert(text::within(v@, lines@[i as int]));
            let ghost rest = all.skip(i as int);
            let ghost before = names(out@);
            proof {
                assert(rest[0] == text::part(v@, lines@[i as int]));
                assert(rest.skip(1) =~= all.skip(i + 1));
            }
            let after = push_line_tokens(&mut out, &v, lines[i], in_unit);
            assert(names(out@) + tokens(rest.skip(1), after) =~= before + tokens(rest, in_unit));
            in_unit = after;
            i = i + 1;
        }
        assert(all.skip(i as int) =~= Seq::<Seq<char>>::empty());
        assert(names(out@) =~= tokens(all, false));
        out
    }
}

/// A float that has to be rendered as text.
#[derive(Debug, Clone, Copy, PartialEq, Eq, Structural)]
pub enum FloatUse {
    /// A cell of a texture matrix: the shortest decimal text that says the float.
    Cell(F32Bits),
    /// A width or a coordinate: as a cell, but for whole numbers, which stand
    /// without a fraction or an exponent.
    Number(F32Bits),
}

/// The floats of a style, in the order in which its line says them.
pub open spec fn style_floats(s: Look) -> Seq<FloatUse> {
    match s {
        Look::Solid { .. } => Seq::empty(),
        Look::Line { width, .. } => seq![FloatUse::Number(width)],
        Look::Textured { matrix, .. } => Seq::new(6, |i: int| FloatUse::Cell(matrix[i])),
    }
}

/// The floats of the first `n` vertices.
pub open spec fn vertex_floats(v: Seq<(F32Bits, F32Bits)>, n: nat) -> Seq<FloatUse>
    decreases n,
{
    if n == 0 {
        Seq::empty()
    } else {
        vertex_floats(v, (n - 1) as nat).push(FloatUse::Number(v[n - 1].0)).push(
            FloatUse::Number(v[n - 1].1),
        )
    }
}

/// The floats of a unit.
pub open spec fn unit_floats(b: Batch) -> Seq<FloatUse> {
    style_floats(b.style) + vertex_floats(b.vertices, b.vertices.len())
}

/// The floats of the first `n` units.
pub open spec fn floats_of(u: Seq<Batch>, n: nat) -> Seq<FloatUse>
    decreases n,
{
    if n == 0 {
        Seq::empty()
    } else {
        floats_of(u, (n - 1) as nat) + unit_floats(u[n - 1])
    }
}

/// The `i`-th text, or nothing.
pub open spec fn text_at(texts: Seq<Seq<char>>, i: int) -> Seq<char> {
    if 0 <= i < texts.len() {
        texts[i]
    } else {
        Seq::empty()
    }
}

/// The `i`-th byte of a color.
pub open spec fn channel(c: u32, i: int) -> nat {
    if i == 0 {
        (c % 0x100) as nat
    } else if i == 1 {
        (c / 0x100 % 0x100) as nat
    } else if i == 2 {
        (c / 0x1_0000 % 0x100) as nat
    } else {
        (c / 0x100_0000) as nat
    }
}

/// The bytes of a color, each behind a colon.
pub open spec fn color_text(c: u32) -> Seq<char> {
    seq![':'] + text::decimal(channel(c, 0)) + seq![':'] + text::decimal(channel(c, 1)) + seq![':']
        + text::decimal(channel(c, 2)) + seq![':'] + text::decimal(channel(c, 3))
}

/// The `n` texts from `at` on, each behind a colon.
pub open spec fn listed(texts: Seq<Seq<char>>, at: int, n: nat) -> Seq<char>
    decreases n,
{
    if n == 0 {
        Seq::empty()
    } else {
        listed(texts, at, (n - 1) as nat) + seq![':'] + text_at(texts, at + n - 1)
    }
}

/// What a textured style starts with: clipped or tiled.
pub open spec fn texture_tag(clipped: bool) -> Seq<char> {
    if clipped {
        seq!['t', 'c']
    } else {
        seq!['t', 'w']
    }
}

/// The style as its line says it. The texts of its floats stand from `at` on.
pub open spec fn style_text(s: Look, texts: Seq<Seq<char>>, at: int) -> Seq<char> {
    match s {
        Look::Solid { color } => seq!['s'] + color_text(color),
        Look::Line { color, .. } => seq!['l', ':'] + text_at(texts, at) + color_text(color),
        Look::Textured { color, bitmap_character_id, clipped, .. } => texture_tag(clipped)
            + color_text(color) + seq![':'] + text::decimal(bitmap_character_id as nat) + listed(
            texts,
            at,
            6,
        ),
    }
}

/// The vertices as their line says them: `n` texts from `at` on, with colons between.
pub open spec fn joined(texts: Seq<Seq<char>>, at: int, n: nat) -> Seq<char>
    decreases n,
{
    if n == 0 {
        Seq::empty()
    } else if n == 1 {
        text_at(texts, at)
    } else {
        joined(texts, at, (n - 1) as nat) + seq![':'] + text_at(texts, at + n - 1)
    }
}

/// What ends a line.
pub open spec fn crlf() -> Seq<char> {
    seq!['\r', '\n']
}

/// The lines of a unit. The texts of its floats stand from `at` on.
pub open spec fn unit_text(b: Batch, texts: Seq<Seq<char>>, at: int) -> Seq<char> {
    let head = seq!['c'] + crlf() + seq!['s', ' '] + style_text(b.style, texts, at) + crlf();
    if b.vertices.len() == 0 {
        head
    } else {
        head + seq![
            if b.style is Line {
                'l'
            } else {
                't'
            },
            ' ',
        ] + joined(texts, at + style_floats(b.style).len(), 2 * b.vertices.len()) + crlf()
    }
}

/// The lines of the first `n` units.
pub open spec fn units_text(u: Seq<Batch>, texts: Seq<Seq<char>>, n: nat) -> Seq<char>
    decreases n,
{
    if n == 0 {
        Seq::empty()
    } else {
        let m = (n - 1) as nat;
        units_text(u, texts, m) + unit_text(u[n - 1], texts, floats_of(u, m).len() as int)
    }
}

/// Appends the text at `i`.
fn push_at(out: &mut String, texts: &Vec<String>, i: usize)
    requires
        i < texts@.len(),
    ensures
        final(out)@ == old(out)@ + text_at(names(texts@), i as int),
{
    text::push_text(out, texts[i].as_str());
}

/// Appends the bytes of a color, each behind a colon.
fn push_color(out: &mut String, c: u32)
    ensures
        final(out)@ == old(out)@ + color_text(c),
{
    out.push(':');
    text::push_decimal(out, c % 0x100);
    out.push(':');
    text::push_decimal(out, c / 0x100 % 0x100);
    out.push(':');
    text::push_decimal(out, c / 0x1_0000 % 0x100);
    out.push(':');
    text::push_decimal(out, c / 0x100_0000);
    assert(out@ =~= old(out)@ + color_text(c));
}

/// Appends the line of a style; returns where the texts of later floats stand.
fn push_style(out: &mut String, s: &Style, texts: &Vec<String>, at: usize) -> (next: usize)
    requires
        at + style_floats(s@).len() <= texts@.len(),
    ensures
        final(out)@ == old(out)@ + style_text(s@, names(texts@), at as int),
        next == at + style_floats(s@).len(),
{
    let ghost before = out@;
    let ghost t = names(texts@);
    let count: usize = texts.len();
    match s {
        Style::Solid { color } => {
            out.push('s');
            push_color(out, *color);
            assert(out@ =~= before + style_text(s@, t, at as int));
            at
        },
        Style::Line { color, .. } => {
            out.push('l');
            out.push(':');
            push_at(out, texts, at);
            push_color(out, *color);
            assert(out@ =~= before + style_text(s@, t, at as int));
            at + 1
        },
        Style::Textured { color, bitmap_character_id, clipped, .. } => {
            out.push('t');
            out.push(
                if *clipped {
                    'c'
                } else {
                    'w'
                },
            );
            push_color(out, *color);
            out.push(':');
            text::push_decimal(out, *bitmap_character_id);
            let ghost head = out@;
            let mut i: usize = 0;
            assert(head + listed(t, at as int, 0) =~= head);
            while i < 6
                invariant
                    i <= 6,
                    at + 6 <= count,
                    count == texts@.len(),
                    t == names(texts@),
                    out@ == head + listed(t, at as int, i as nat),
                decreases 6 - i,
            {
                out.push(':');
                push_at(out, texts, at + i);
                assert(out@ =~= head + listed(t, at as int, (i + 1) as nat));
                i = i + 1;
            }
            assert(out@ =~= before + style_text(s@, t, at as int));
            at + 6
        },
    }
}

/// A vertex has two floats.
pub proof fn lemma_vertex_floats(v: Seq<(F32Bits, F32Bits)>, n: nat)
    ensures
        vertex_floats(v, n).len() == 2 * n,
    decreases n,
{
    if n > 0 {
        lemma_vertex_floats(v, (n - 1) as nat);
    }
}

/// Appends `n` texts from `at` on, with colons between.
fn push_joined(out: &mut String, texts: &Vec<String>, at: usize, n: usize)
    requires
        at + n <= texts@.len(),
    ensures
        final(out)@ == old(out)@ + joined(names(texts@), at as int, n as nat),
{
    let ghost before = out@;
    let ghost t = names(texts@);
    let count: usize = texts.len();
    let mut i: usize = 0;
    assert(before + joined(t, at as int, 0) =~= before);
    while i < n
        invariant
            i <= n,
            at + n <= count,
            count == texts@.len(),
            t == names(texts@),
            out@ == before + joined(t, at as int, i as nat),
        decreases n - i,
    {
        if i > 0 {
            out.push(':');
        }
        push_at(out, texts, at + i);
        assert(out@ =~= before + joined(t, at as int, (i + 1) as nat));
        i = i + 1;
    }
}

/// Appends the lines of a unit; returns where the texts of later floats stand.
#[verifier::rlimit(60)]
fn push_unit(out: &mut String, u: &RenderUnit, texts: &Vec<String>, at: usize) -> (next: usize)
    requires
        at + unit_floats(u@).len() <= texts@.len(),
    ensures
        final(out)@ == old(out)@ + unit_text(u@, names(texts@), at as int),
        next == at + unit_floats(u@).len(),
{
    let ghost before = out@;
    let count: usize = texts.len();
    proof {
        lemma_vertex_floats(u@.vertices, u@.vertices.len());
    }
    out.push('c');
    out.push('\r');
    out.push('\n');
    out.push('s');
    out.push(' ');
    let next: usize = push_style(out, &u.style, texts, at);
    out.push('\r');
    out.push('\n');
    let n: usize = u.vertices.len();
    if n == 0 {
        assert(out@ =~= before + unit_text(u@, names(texts@), at as int));
        return next;
    }
    match u.style {
        Style::Line { .. } => {
            out.push('l');
        },
        _ => {
            out.push('t');
        },
    }
    out.push(' ');
    push_joined(out, texts, next, 2 * n);
    out.push('\r');
    out.push('\n');
    assert(out@ =~= before + unit_text(u@, names(texts@), at as int));
    next + 2 * n
}

proof fn lemma_floats_grow(u: Seq<Batch>, i: nat, n: nat)
    requires
        i <= n,
    ensures
        floats_of(u, i).len() <= floats_of(u, n).len(),
    decreases n - i,
{
    if i < n {
        lemma_floats_grow(u, i, (n - 1) as nat);
    }
}

/// Appends the floats of a unit.
fn push_floats(out: &mut Vec<FloatUse>, u: &RenderUnit)
    ensures
        final(out)@ == old(out)@ + unit_floats(u@),
{
    let ghost before = out@;
    match u.style {
        Style::Solid { .. } => {},
        Style::Line { width, .. } => {
            out.push(FloatUse::Number(width));
        },
        Style::Textured { matrix, .. } => {
            out.push(FloatUse::Cell(matrix[0]));
            out.push(FloatUse::Cell(matrix[1]));
            out.push(FloatUse::Cell(matrix[2]));
            out.push(FloatUse::Cell(matrix[3]));
            out.push(FloatUse::Cell(matrix[4]));
            out.push(FloatUse::Cell(matrix[5]));
        },
    }
    assert(out@ =~= before + style_floats(u@.style));
    let ghost head = out@;
    let mut i: usize = 0;
    assert(head + vertex_floats(u@.vertices, 0) =~= head);
    while i < u.vertices.len()
        invariant
            i <= u.vertices@.len(),
            out@ == head + vertex_floats(u@.vertices, i as nat),
        decreases u.vertices@.len() - i,
    {
        let (x, y) = u.vertices[i];
        out.push(FloatUse::Number(x));
        out.push(FloatUse::Number(y));
        assert(out@ =~= head + vertex_floats(u@.vertices, (i + 1) as nat));
        i = i + 1;
    }
    assert(out@ =~= before + unit_floats(u@));
}

/// Where the geometry of a shape is stored: `<base>_geometry/<index>.ru`.
pub open spec fn geometry_path(base: Seq<char>, index: u32) -> Seq<char> {
    paths::beside(base, "apt"@) + "_geometry/"@ + text::decimal(index as nat) + ".ru"@
}

impl RuFormat {
    /// The floats that [`RuFormat::serialize`] needs the text of, in order.
    pub fn float_values(&self, geometry: &ShapeGeometry) -> (out: Vec<FloatUse>)
        ensures
            out@ == floats_of(batches(geometry.units@), geometry.units@.len()),
    {
        let ghost u = batches(geometry.units@);
        let mut out: Vec<FloatUse> = Vec::new();
        let mut i: usize = 0;
        while i < geometry.units.len()
            invariant
                i <= geometry.units@.len(),
                u == batches(geometry.units@),
                out@ == floats_of(u, i as nat),
            decreases geometry.units@.len() - i,
        {
            push_floats(&mut out, &geometry.units[i]);
            assert(u[i as int] == geometry.units@[i as int]@);
            i = i + 1;
        }
        out
    }

    /// The geometry as text. `texts` holds the text of each float, in the order
    /// of [`RuFormat::float_values`].
    pub fn serialize(&self, geometry: &ShapeGeometry, texts: &Vec<String>) -> (out: String)
        requires
            texts@.len() == floats_of(batches(geometry.units@), geometry.units@.len()).len(),
        ensures
            out@ == units_text(
                batches(geometry.units@),
                names(texts@),
                geometry.units@.len(),
            ),
    {
        let ghost u = batches(geometry.units@);
        let ghost t = names(texts@);
        let mut out = String::new();
        let mut at: usize = 0;
        let mut i: usize = 0;
        while i < geometry.units.len()
            invariant
                i <= geometry.units@.len(),
                u == batches(geometry.units@),
                t == names(texts@),
                texts@.len() == floats_of(u, geometry.units@.len()).len(),
                at == floats_of(u, i as nat).len(),
                out@ == units_text(u, t, i as nat),
            decreases geometry.units@.len() - i,
        {
            proof {
                lemma_floats_grow(u, (i + 1) as nat, geometry.units@.len());
                assert(u[i as int] == geometry.units@[i as int]@);
            }
            at = push_unit(&mut out, &geometry.units[i], texts, at);
            i = i + 1;
        }
        out
    }

    /// Location of a shape's geometry relative to the movie base path
    /// (`<base>` without extension).
    pub fn path_for(&self, base: &str, shape_index: u32) -> (path: String)
        ensures
            path@ == geometry_path(base@, shape_index),
    {
        let mut path = paths::beside_of(base, "apt");
        text::push_text(&mut path, "_geometry/");
        text::push_decimal(&mut path, shape_index);
        text::push_text(&mut path, ".ru");
        assert(path@ =~= geometry_path(base@, shape_index));
        path
    }
}

} // verus!
