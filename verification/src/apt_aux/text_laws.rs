//! Which part of a line of text says what.
use super::dat;
use super::ru::{self, Draft, Look, Reading};
use crate::apt::types::F32Bits;
use crate::text;
use vstd::prelude::*;

verus! {

/// Whether a color is what four fields from the `i`-th on say: red lowest.
pub open spec fn color_says(f: Seq<Seq<char>>, i: int, c: u32) -> bool {
    &&& i + 4 <= f.len()
    &&& text::number(f[i], 255) matches Some(n0) && text::number(f[i + 1], 255) matches Some(n1)
        && text::number(f[i + 2], 255) matches Some(n2) && text::number(f[i + 3], 255) matches Some(
        n3,
    ) && c == n0 + 0x100 * n1 + 0x1_0000 * n2 + 0x100_0000 * n3
}

/// Whether a style is what its fields say: `s` and a color; `l`, a width and a color; or
/// `tc` where the image is clipped and `tw` where it is tiled, a color, the image and the
/// six numbers of its matrix.
pub open spec fn style_says(f: Seq<Seq<char>>, floats: Seq<Option<F32Bits>>, s: Look) -> bool {
    match s {
        Look::Solid { color } => f[0] == seq!['s'] && color_says(f, 1, color),
        Look::Line { color, width } => f[0] == seq!['l'] && floats.len() >= 1 && floats[0] == Some(
            width,
        ) && color_says(f, 2, color),
        Look::Textured { color, bitmap_character_id, matrix, clipped } => {
            &&& f[0] == if clipped {
                seq!['t', 'c']
            } else {
                seq!['t', 'w']
            }
            &&& color_says(f, 1, color)
            &&& f.len() >= 12
            &&& text::number(f[5], 0xFFFF_FFFF) == Some(bitmap_character_id as nat)
            &&& matrix.len() == 6
            &&& floats.len() >= 6
            &&& forall|i: int| 0 <= i < 6 ==> floats[i] == Some(#[trigger] matrix[i])
        },
    }
}

proof fn lemma_cells(f: Seq<Seq<char>>, floats: Seq<Option<F32Bits>>, n: nat)
    ensures
        ru::cells(f, floats, n) matches Ok(s) ==> {
            &&& s.len() == n
            &&& n > 0 ==> f.len() >= 6 + n && floats.len() >= n
            &&& forall|i: int| 0 <= i < n ==> floats[i] == Some(#[trigger] s[i])
        },
    decreases n,
{
    if n > 0 {
        lemma_cells(f, floats, (n - 1) as nat);
    }
}

/// A style is what its fields say.
pub proof fn law_style(f: Seq<Seq<char>>, floats: Seq<Option<F32Bits>>)
    ensures
        ru::style(f, floats) matches Ok(s) ==> style_says(f, floats, s),
{
    lemma_cells(f, floats, 6);
    lemma_number(f[1], 255);
    lemma_number(f[2], 255);
    lemma_number(f[3], 255);
    lemma_number(f[4], 255);
    lemma_number(f[5], 255);
    lemma_number(f[5], 0xFFFF_FFFF);
    let (a, b): (Seq<char>, Seq<char>) = (seq!['t', 'c'], seq!['t', 'w']);
    assert(a[1] != b[1]);
    assert(seq!['s'] != seq!['l']) by {
        let (x, y): (Seq<char>, Seq<char>) = (seq!['s'], seq!['l']);
        assert(x[0] != y[0]);
    }
}

/// A number is not larger than it may be.
proof fn lemma_number(s: Seq<char>, max: nat)
    ensures
        text::number(s, max) matches Some(n) ==> n <= max,
{
}

/// Whether units are others, but for the last.
pub open spec fn same_but_last(a: Seq<Draft>, b: Seq<Draft>) -> bool {
    &&& a.len() == b.len()
    &&& a.len() > 0
    &&& forall|i: int| 0 <= i < a.len() - 1 ==> a[i] == #[trigger] b[i]
}

/// A line that starts with `c` starts a unit, one with `s` gives the last unit its style,
/// and one with `t` or `l` gives it more coordinates, the next that there are. Any other
/// changes nothing.
pub proof fn law_geometry_line(r: Reading, line: Seq<char>)
    ensures
        ru::with_line(r, line) matches Ok(x) ==> {
            let t = text::trim(line);
            let w = ru::word(t);
            &&& t.len() == 0 ==> x == r
            &&& t.len() > 0 && w == seq!['c'] ==> {
                &&& x.floats == r.floats
                &&& x.units.len() == r.units.len() + 1
                &&& x.units.drop_last() == r.units
                &&& x.units.last().coords.len() == 0
                &&& x.units.last().style == (Look::Solid { color: 0 })
            }
            &&& t.len() > 0 && w == seq!['s'] ==> {
                let f = text::split(ru::word(ru::behind_word(t)), ':');
                &&& same_but_last(r.units, x.units)
                &&& x.units.last().coords == r.units.last().coords
                &&& style_says(f, r.floats, x.units.last().style)
                &&& x.floats == r.floats.skip(ru::style_tokens(f).len() as int)
            }
            &&& t.len() > 0 && (w == seq!['t'] || w == seq!['l']) ==> {
                let n = ru::filled(text::split(ru::word(ru::behind_word(t)), ':')).len();
                let old = r.units.last().coords;
                let new = x.units.last().coords;
                &&& same_but_last(r.units, x.units)
                &&& x.units.last().style == r.units.last().style
                &&& new.len() == old.len() + n
                &&& new.take(old.len() as int) == old
                &&& forall|i: int|
                    0 <= i < n ==> #[trigger] float_says(r.floats, i, new[old.len() + i])
                &&& x.floats == r.floats.skip(n as int)
            }
            &&& t.len() > 0 && w != seq!['c'] && w != seq!['s'] && w != seq!['t'] && w != seq!['l']
                ==> x == r
        },
{
    let t = text::trim(line);
    let rest = ru::behind_word(t);
    let f = text::split(ru::word(rest), ':');
    law_style(f, r.floats);
    let n = ru::filled(f).len();
    let last = r.units.len() - 1;
    if last >= 0 {
        lemma_coords(r.units[last].coords, r.floats, n);
    }
    lemma_letters();
    if let Ok(x) = ru::with_line(r, line) {
        if t.len() > 0 && ru::word(t) == seq!['c'] {
            assert(x.units.drop_last() =~= r.units);
        }
    }
}

proof fn lemma_letters()
    ensures
        seq!['c'] != seq!['s'],
        seq!['c'] != seq!['t'],
        seq!['c'] != seq!['l'],
        seq!['s'] != seq!['t'],
        seq!['s'] != seq!['l'],
        seq!['t'] != seq!['l'],
{
    let (c, s, t, l): (Seq<char>, Seq<char>, Seq<char>, Seq<char>) = (
        seq!['c'],
        seq!['s'],
        seq!['t'],
        seq!['l'],
    );
    assert(c[0] != s[0] && c[0] != t[0] && c[0] != l[0] && s[0] != t[0] && s[0] != l[0] && t[0]
        != l[0]);
}

/// Whether a number is the `i`-th that there is.
pub open spec fn float_says(floats: Seq<Option<F32Bits>>, i: int, v: F32Bits) -> bool {
    i < floats.len() && floats[i] == Some(v)
}

proof fn lemma_coords(c: Seq<F32Bits>, floats: Seq<Option<F32Bits>>, n: nat)
    ensures
        ru::more_coords(c, floats, n) matches Ok(s) ==> {
            &&& s.len() == c.len() + n
            &&& s.take(c.len() as int) == c
            &&& forall|i: int| 0 <= i < n ==> #[trigger] float_says(floats, i, s[c.len() + i])
        },
    decreases n,
{
    if n > 0 {
        lemma_coords(c, floats, (n - 1) as nat);
        if let Ok(before) = ru::more_coords(c, floats, (n - 1) as nat) {
            if let Ok(s) = ru::more_coords(c, floats, n) {
                assert(s.take(c.len() as int) =~= before.take(c.len() as int));
                assert forall|i: int| 0 <= i < n implies #[trigger] float_says(
                    floats,
                    i,
                    s[c.len() + i],
                ) by {
                    if i < n - 1 {
                        assert(float_says(floats, i, before[c.len() + i]));
                    }
                }
            }
        }
    } else {
        assert(c.take(c.len() as int) =~= c);
    }
}

/// The coordinates of a unit are its vertices, two by two.
pub proof fn law_vertices(d: Seq<Draft>, u: int, i: int)
    requires
        0 <= u < d.len(),
        0 <= i < d[u].coords.len() / 2,
    ensures
        ru::finished(d).len() == d.len(),
        ru::finished(d)[u].style == d[u].style,
        ru::finished(d)[u].vertices.len() == d[u].coords.len() / 2,
        ru::finished(d)[u].vertices[i].0 == d[u].coords[2 * i],
        ru::finished(d)[u].vertices[i].1 == d[u].coords[2 * i + 1],
{
}

/// Whether `n` is the number that a text says, but for spaces around it.
pub open spec fn says(s: Seq<char>, n: u32) -> bool {
    text::number(text::trim(s), 0xFFFF_FFFF) == Some(n as nat)
}

/// A line of a map of textures is a character, `->` and the texture that it has, or a
/// character and `=` where the texture is the character's own; blank lines and those that
/// start with `;` say nothing.
pub proof fn law_map_line(line: Seq<char>)
    ensures
        dat::line_entry(line) matches Ok(r) ==> {
            let t = text::trim(line);
            match r {
                None => t.len() == 0 || t[0] == ';',
                Some((a, b)) => {
                    ||| exists|k: int| {
                        &&& k < t.len()
                        &&& k == text::find_pair(t, '-', '>')
                        &&& says(#[trigger] t.take(k), a)
                        &&& says(t.skip(k + 2), b)
                    }
                    ||| exists|k: int| {
                        &&& k < t.len()
                        &&& k == text::find(t, '=')
                        &&& says(#[trigger] t.take(k), a)
                        &&& a == b
                    }
                },
            }
        },
{
    let t = text::trim(line);
    let k = text::find_pair(t, '-', '>');
    let e = text::find(t, '=');
    lemma_number(text::trim(t.take(k)), 0xFFFF_FFFF);
    lemma_number(text::trim(t.skip(k + 2)), 0xFFFF_FFFF);
    lemma_number(text::trim(t.take(e)), 0xFFFF_FFFF);
}

} // verus!
