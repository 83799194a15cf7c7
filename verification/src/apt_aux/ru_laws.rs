//! What holds of reading and writing `.ru` geometry.
use super::dat::lemma_trim_line;
use super::ru::{
    self, behind_word, cells, channel, color, color_byte, color_text, filled, finished, floats_of,
    geometry_of, joined, line_tokens, listed, more_coords, packed, pairs, starts_unit, style,
    style_floats, style_text, style_tokens, text_at, texture_tag, tokens, unit_floats, unit_text,
    units_text, vertex_floats, with_line, with_lines, word, Batch, Draft, FloatUse, Look, Reading,
};
use super::Trouble;
use crate::apt::types::F32Bits;
use crate::text;
use vstd::prelude::*;

verus! {

/// A text that stands for a number: neither empty nor with a colon or white space in
/// it.
pub open spec fn is_token(s: Seq<char>) -> bool {
    &&& s.len() > 0
    &&& forall|i: int| 0 <= i < s.len() ==> !text::is_space(#[trigger] s[i]) && s[i] != ':'
}

pub open spec fn all_tokens(v: Seq<Seq<char>>) -> bool {
    forall|i: int| 0 <= i < v.len() ==> is_token(#[trigger] v[i])
}

/// The float of a use.
pub open spec fn bits(f: FloatUse) -> F32Bits {
    match f {
        FloatUse::Cell(b) => b,
        FloatUse::Number(b) => b,
    }
}

/// The floats of uses, all of them read.
pub open spec fn read_floats(v: Seq<FloatUse>) -> Seq<Option<F32Bits>> {
    Seq::new(v.len(), |i: int| Some(bits(v[i])))
}

/// Fields with colons between.
pub open spec fn glued(f: Seq<Seq<char>>) -> Seq<char>
    decreases f.len(),
{
    if f.len() == 0 {
        Seq::empty()
    } else if f.len() == 1 {
        f[0]
    } else {
        f[0] + seq![':'] + glued(f.skip(1))
    }
}

/// Fields are found between the colons again.
proof fn lemma_split_glued(f: Seq<Seq<char>>)
    requires
        f.len() > 0,
        all_tokens(f),
    ensures
        text::split(glued(f), ':') == f,
    decreases f.len(),
{
    let s = glued(f);
    let k = f[0].len() as int;
    assert(is_token(f[0]));
    if f.len() == 1 {
        text::lemma_find(s, ':', k);
        assert(text::split(s, ':') =~= f);
    } else {
        let rest = f.skip(1);
        assert forall|i: int| 0 <= i < rest.len() implies is_token(#[trigger] rest[i]) by {
            assert(rest[i] == f[i + 1]);
        }
        lemma_split_glued(rest);
        assert forall|i: int| 0 <= i < k implies s[i] != ':' by {
            assert(s[i] == f[0][i]);
        }
        text::lemma_find(s, ':', k);
        assert(s.take(k) =~= f[0]);
        assert(s.skip(k + 1) =~= glued(rest));
        assert(text::split(s, ':') =~= f);
    }
}

/// No white space comes in between the fields.
proof fn lemma_glued_solid(f: Seq<Seq<char>>)
    requires
        f.len() > 0,
        all_tokens(f),
    ensures
        glued(f).len() > 0,
        forall|i: int| 0 <= i < glued(f).len() ==> !text::is_space(#[trigger] glued(f)[i]),
    decreases f.len(),
{
    let s = glued(f);
    assert(is_token(f[0]));
    if f.len() > 1 {
        let rest = f.skip(1);
        assert forall|i: int| 0 <= i < rest.len() implies is_token(#[trigger] rest[i]) by {
            assert(rest[i] == f[i + 1]);
        }
        lemma_glued_solid(rest);
        let k = f[0].len() as int;
        assert forall|i: int| 0 <= i < s.len() implies !text::is_space(#[trigger] s[i]) by {
            if i < k {
                assert(s[i] == f[0][i]);
            } else if i > k {
                assert(s[i] == glued(rest)[i - k - 1]);
            }
        }
    }
}

proof fn lemma_glued_push(f: Seq<Seq<char>>, x: Seq<char>)
    requires
        f.len() > 0,
    ensures
        glued(f.push(x)) == glued(f) + seq![':'] + x,
    decreases f.len(),
{
    if f.len() == 1 {
        assert(f.push(x).skip(1) =~= seq![x]);
        assert(glued(seq![x]) == x);
        assert(glued(f.push(x)) =~= glued(f) + seq![':'] + x);
    } else {
        lemma_glued_push(f.skip(1), x);
        assert(f.push(x).skip(1) =~= f.skip(1).push(x));
        assert(glued(f.push(x)) =~= glued(f) + seq![':'] + x);
    }
}

proof fn lemma_joined(texts: Seq<Seq<char>>, at: int, n: nat)
    requires
        0 <= at,
        at + n <= texts.len(),
        0 < n,
    ensures
        joined(texts, at, n) == glued(texts.subrange(at, at + n)),
    decreases n,
{
    if n > 1 {
        lemma_joined(texts, at, (n - 1) as nat);
        let f = texts.subrange(at, at + n - 1);
        lemma_glued_push(f, texts[at + n - 1]);
        assert(texts.subrange(at, at + n) =~= f.push(texts[at + n - 1]));
    } else {
        assert(texts.subrange(at, at + n) =~= seq![texts[at]]);
    }
}

proof fn lemma_listed(f: Seq<Seq<char>>, texts: Seq<Seq<char>>, at: int, n: nat)
    requires
        f.len() > 0,
        0 <= at,
        at + n <= texts.len(),
    ensures
        glued(f + texts.subrange(at, at + n)) == glued(f) + listed(texts, at, n),
    decreases n,
{
    if n > 0 {
        lemma_listed(f, texts, at, (n - 1) as nat);
        let g = f + texts.subrange(at, at + n - 1);
        lemma_glued_push(g, texts[at + n - 1]);
        assert(f + texts.subrange(at, at + n) =~= g.push(texts[at + n - 1]));
        assert(glued(f) + listed(texts, at, n) =~= glued(g) + seq![':'] + texts[at + n - 1]);
    } else {
        assert(f + texts.subrange(at, at) =~= f);
        assert(glued(f) + listed(texts, at, 0) =~= glued(f));
    }
}

/// The digits of the bytes of a color.
pub open spec fn color_fields(c: u32) -> Seq<Seq<char>> {
    seq![
        text::decimal(channel(c, 0)),
        text::decimal(channel(c, 1)),
        text::decimal(channel(c, 2)),
        text::decimal(channel(c, 3)),
    ]
}

proof fn lemma_color_text(f: Seq<Seq<char>>, c: u32)
    requires
        f.len() > 0,
    ensures
        glued(f + color_fields(c)) == glued(f) + color_text(c),
{
    let d = color_fields(c);
    lemma_glued_push(f, d[0]);
    lemma_glued_push(f.push(d[0]), d[1]);
    lemma_glued_push(f.push(d[0]).push(d[1]), d[2]);
    lemma_glued_push(f.push(d[0]).push(d[1]).push(d[2]), d[3]);
    assert(f + d =~= f.push(d[0]).push(d[1]).push(d[2]).push(d[3]));
    assert(glued(f + d) =~= glued(f) + color_text(c));
}

proof fn lemma_decimal_token(n: nat)
    ensures
        is_token(text::decimal(n)),
{
    text::lemma_decimal(n);
}

proof fn lemma_byte(f: Seq<Seq<char>>, i: int, n: nat)
    requires
        0 <= i < f.len(),
        f[i] == text::decimal(n),
        n <= 0xFF,
    ensures
        color_byte(f, i) == Ok::<u8, Trouble>(n as u8),
{
    text::lemma_decimal(n);
    assert(text::is_digit(f[i][0]));
}

proof fn lemma_color(f: Seq<Seq<char>>, i: int, c: u32)
    requires
        0 <= i,
        i + 4 <= f.len(),
        f.subrange(i, i + 4) == color_fields(c),
    ensures
        color(f, i) == Ok::<u32, Trouble>(c),
{
    let d = color_fields(c);
    assert forall|k: int| 0 <= k < 4 implies #[trigger] f[i + k] == d[k] by {
        assert(f.subrange(i, i + 4)[k] == f[i + k]);
    }
    assert(f[i + 0] == d[0] && f[i + 1] == d[1] && f[i + 2] == d[2] && f[i + 3] == d[3]);
    lemma_byte(f, i, channel(c, 0));
    lemma_byte(f, i + 1, channel(c, 1));
    lemma_byte(f, i + 2, channel(c, 2));
    lemma_byte(f, i + 3, channel(c, 3));
    assert(packed(
        channel(c, 0) as u8,
        channel(c, 1) as u8,
        channel(c, 2) as u8,
        channel(c, 3) as u8,
    ) == c);
}

/// The fields of a style's line. The texts of its floats stand from `at` on.
pub open spec fn style_fields(s: Look, texts: Seq<Seq<char>>, at: int) -> Seq<Seq<char>> {
    match s {
        Look::Solid { color } => seq![seq!['s']] + color_fields(color),
        Look::Line { color, .. } => seq![seq!['l'], text_at(texts, at)] + color_fields(color),
        Look::Textured { color, bitmap_character_id, clipped, .. } => (seq![texture_tag(clipped)]
            + color_fields(color)).push(text::decimal(bitmap_character_id as nat))
            + texts.subrange(at, at + 6),
    }
}

/// A style that a line can say.
pub open spec fn whole_style(s: Look) -> bool {
    match s {
        Look::Textured { matrix, .. } => matrix.len() == 6,
        _ => true,
    }
}

proof fn lemma_style_text(s: Look, texts: Seq<Seq<char>>, at: int)
    requires
        whole_style(s),
        all_tokens(texts),
        0 <= at,
        at + style_floats(s).len() <= texts.len(),
    ensures
        style_text(s, texts, at) == glued(style_fields(s, texts, at)),
        all_tokens(style_fields(s, texts, at)),
        style_fields(s, texts, at).len() > 0,
{
    let f = style_fields(s, texts, at);
    let c = match s {
        Look::Solid { color } => color,
        Look::Line { color, .. } => color,
        Look::Textured { color, .. } => color,
    };
    lemma_decimal_token(channel(c, 0));
    lemma_decimal_token(channel(c, 1));
    lemma_decimal_token(channel(c, 2));
    lemma_decimal_token(channel(c, 3));
    match s {
        Look::Solid { color } => {
            lemma_color_text(seq![seq!['s']], color);
        },
        Look::Line { color, .. } => {
            let w = texts[at];
            assert(is_token(w));
            lemma_glued_push(seq![seq!['l']], w);
            assert(seq![seq!['l']].push(w) =~= seq![seq!['l'], w]);
            lemma_color_text(seq![seq!['l'], w], color);
            assert(style_text(s, texts, at) =~= glued(f));
        },
        Look::Textured { color, bitmap_character_id, clipped, .. } => {
            let tag = texture_tag(clipped);
            let id = text::decimal(bitmap_character_id as nat);
            lemma_decimal_token(bitmap_character_id as nat);
            lemma_color_text(seq![tag], color);
            let g = seq![tag] + color_fields(color);
            lemma_glued_push(g, id);
            lemma_listed(g.push(id), texts, at, 6);
            assert(style_text(s, texts, at) =~= glued(f));
            assert forall|i: int| 0 <= i < f.len() implies is_token(#[trigger] f[i]) by {
                if i >= 6 {
                    assert(f[i] == texts[at + i - 6]);
                }
            }
        },
    }
}

proof fn lemma_cells(f: Seq<Seq<char>>, floats: Seq<Option<F32Bits>>, m: Seq<F32Bits>, n: nat)
    requires
        n <= 6,
        m.len() == 6,
        f.len() == 12,
        floats.len() >= 6,
        forall|i: int| 0 <= i < 6 ==> #[trigger] floats[i] == Some(m[i]),
    ensures
        cells(f, floats, n) == Ok::<Seq<F32Bits>, Trouble>(m.take(n as int)),
    decreases n,
{
    if n > 0 {
        lemma_cells(f, floats, m, (n - 1) as nat);
        assert(floats[n - 1] == Some(m[n - 1]));
        assert(m.take(n - 1).push(m[n - 1]) =~= m.take(n as int));
    } else {
        assert(m.take(0) =~= Seq::empty());
    }
}

/// The tags of styles are told apart.
proof fn lemma_tags()
    ensures
        seq!['s'] != seq!['l'],
        seq!['t', 'c'] != seq!['s'],
        seq!['t', 'c'] != seq!['l'],
        seq!['t', 'w'] != seq!['s'],
        seq!['t', 'w'] != seq!['l'],
        seq!['t', 'c'] != seq!['t', 'w'],
        seq!['l'] != seq!['t', 'c'],
        seq!['l'] != seq!['t', 'w'],
        seq!['s'] != seq!['t', 'c'],
        seq!['s'] != seq!['t', 'w'],
{
    assert(seq!['s'][0] == 's' && seq!['l'][0] == 'l');
    assert(seq!['t', 'c'].len() == 2 && seq!['t', 'w'].len() == 2);
    assert(seq!['s'].len() == 1 && seq!['l'].len() == 1);
    assert(seq!['t', 'c'][1] == 'c' && seq!['t', 'w'][1] == 'w');
}

proof fn lemma_solid(f: Seq<Seq<char>>, c: u32, floats: Seq<Option<F32Bits>>)
    requires
        f == seq![seq!['s']] + color_fields(c),
    ensures
        style(f, floats) == Ok::<Look, Trouble>(Look::Solid { color: c }),
        style_tokens(f) == Seq::<Seq<char>>::empty(),
{
    lemma_tags();
    assert(f.subrange(1, 5) =~= color_fields(c));
    lemma_color(f, 1, c);
    assert(f[0] == seq!['s']);
}

proof fn lemma_line_style(
    f: Seq<Seq<char>>,
    w: Seq<char>,
    c: u32,
    width: F32Bits,
    floats: Seq<Option<F32Bits>>,
)
    requires
        f == seq![seq!['l'], w] + color_fields(c),
        floats.len() > 0,
        floats[0] == Some(width),
    ensures
        style(f, floats) == Ok::<Look, Trouble>(Look::Line { color: c, width }),
        style_tokens(f) == seq![w],
{
    lemma_tags();
    assert(f.subrange(2, 6) =~= color_fields(c));
    lemma_color(f, 2, c);
    assert(f[0] == seq!['l']);
    assert(f[1] == w);
}

proof fn lemma_textured(
    f: Seq<Seq<char>>,
    c: u32,
    id: u32,
    t: Seq<Seq<char>>,
    matrix: Seq<F32Bits>,
    clipped: bool,
    floats: Seq<Option<F32Bits>>,
)
    requires
        f == (seq![texture_tag(clipped)] + color_fields(c)).push(text::decimal(id as nat)) + t,
        t.len() == 6,
        matrix.len() == 6,
        floats.len() >= 6,
        forall|i: int| 0 <= i < 6 ==> #[trigger] floats[i] == Some(matrix[i]),
    ensures
        style(f, floats) == Ok::<Look, Trouble>(
            Look::Textured { color: c, bitmap_character_id: id, matrix, clipped },
        ),
        style_tokens(f) == t,
{
    lemma_tags();
    assert(f.len() == 12);
    assert(f[0] == texture_tag(clipped));
    assert(f.subrange(1, 5) =~= color_fields(c));
    lemma_color(f, 1, c);
    text::lemma_decimal(id as nat);
    assert(f[5] == text::decimal(id as nat));
    lemma_cells(f, floats, matrix, 6);
    assert(matrix.take(6) =~= matrix);
    assert(f.skip(6) =~= t);
}

/// A style is read back from its fields.
proof fn lemma_style(s: Look, texts: Seq<Seq<char>>, at: int, floats: Seq<Option<F32Bits>>)
    requires
        whole_style(s),
        0 <= at,
        at + style_floats(s).len() <= texts.len(),
        style_floats(s).len() <= floats.len(),
        forall|i: int|
            0 <= i < style_floats(s).len() ==> #[trigger] floats[i] == Some(bits(style_floats(s)[i])),
    ensures
        style(style_fields(s, texts, at), floats) == Ok::<Look, Trouble>(s),
        style_tokens(style_fields(s, texts, at)) == texts.subrange(
            at,
            at + style_floats(s).len(),
        ),
{
    let f = style_fields(s, texts, at);
    match s {
        Look::Solid { color } => {
            lemma_solid(f, color, floats);
            assert(texts.subrange(at, at) =~= Seq::empty());
        },
        Look::Line { color, width } => {
            assert(floats[0] == Some(bits(style_floats(s)[0])));
            lemma_line_style(f, texts[at], color, width, floats);
            assert(texts.subrange(at, at + 1) =~= seq![texts[at]]);
        },
        Look::Textured { color, bitmap_character_id, matrix, clipped } => {
            assert forall|i: int| 0 <= i < 6 implies #[trigger] floats[i] == Some(matrix[i]) by {
                assert(floats[i] == Some(bits(style_floats(s)[i])));
            }
            lemma_textured(
                f,
                color,
                bitmap_character_id,
                texts.subrange(at, at + 6),
                matrix,
                clipped,
                floats,
            );
        },
    }
}

/// A line of a command and what follows it, behind a space.
proof fn lemma_line(c: char, rest: Seq<char>)
    requires
        !text::is_space(c),
        rest.len() > 0,
        forall|i: int| 0 <= i < rest.len() ==> !text::is_space(#[trigger] rest[i]),
    ensures
        text::trim((seq![c, ' '] + rest).push('\r')) == seq![c, ' '] + rest,
        word(seq![c, ' '] + rest) == seq![c],
        behind_word(seq![c, ' '] + rest) == rest,
        word(rest) == rest,
{
    let t = seq![c, ' '] + rest;
    assert(t[0] == c);
    assert(t[t.len() - 1] == rest[rest.len() - 1]);
    lemma_trim_line(t);
    assert(t[1] == ' ');
    ru::lemma_word_end(t, 1);
    assert(t.take(1) =~= seq![c]);
    assert(t.skip(1).skip(1) =~= rest);
    assert(t.skip(1)[0] == ' ');
    assert(text::trim_start(t.skip(1)) == text::trim_start(rest));
    ru::lemma_word_end(rest, rest.len() as int);
    assert(rest.take(rest.len() as int) =~= rest);
}

proof fn lemma_unit_line()
    ensures
        text::trim(seq!['c', '\r']) == seq!['c'],
        word(seq!['c']) == seq!['c'],
{
    assert(seq!['c'].push('\r') =~= seq!['c', '\r']);
    lemma_trim_line(seq!['c']);
    ru::lemma_word_end(seq!['c'], 1);
    assert(seq!['c'].take(1) =~= seq!['c']);
}

proof fn lemma_filled(f: Seq<Seq<char>>)
    requires
        all_tokens(f),
    ensures
        filled(f) == f,
    decreases f.len(),
{
    if f.len() > 0 {
        assert(is_token(f[f.len() - 1]));
        lemma_filled(f.take(f.len() - 1));
        assert(f.take(f.len() - 1).push(f[f.len() - 1]) =~= f);
    }
}

/// The coordinates of vertices.
pub open spec fn coords(v: Seq<(F32Bits, F32Bits)>) -> Seq<F32Bits> {
    Seq::new(
        2 * v.len(),
        |i: int|
            if i % 2 == 0 {
                v[i / 2].0
            } else {
                v[i / 2].1
            },
    )
}

proof fn lemma_vertex_bits(v: Seq<(F32Bits, F32Bits)>, n: nat)
    requires
        n <= v.len(),
    ensures
        vertex_floats(v, n).len() == 2 * n,
        forall|i: int| 0 <= i < 2 * n ==> bits(#[trigger] vertex_floats(v, n)[i]) == coords(v)[i],
    decreases n,
{
    if n > 0 {
        lemma_vertex_bits(v, (n - 1) as nat);
        let before = vertex_floats(v, (n - 1) as nat);
        let all = vertex_floats(v, n);
        assert forall|i: int| 0 <= i < 2 * n implies bits(#[trigger] all[i]) == coords(v)[i] by {
            if i < 2 * n - 2 {
                assert(all[i] == before[i]);
            }
        }
    }
}

proof fn lemma_more_coords(floats: Seq<Option<F32Bits>>, c: Seq<F32Bits>, n: nat)
    requires
        n <= c.len(),
        c.len() <= floats.len(),
        forall|i: int| 0 <= i < c.len() ==> #[trigger] floats[i] == Some(c[i]),
    ensures
        more_coords(Seq::empty(), floats, n) == Ok::<Seq<F32Bits>, Trouble>(c.take(n as int)),
    decreases n,
{
    if n > 0 {
        lemma_more_coords(floats, c, (n - 1) as nat);
        assert(floats[n - 1] == Some(c[n - 1]));
        assert(c.take(n - 1).push(c[n - 1]) =~= c.take(n as int));
    } else {
        assert(c.take(0) =~= Seq::empty());
    }
}

proof fn lemma_pairs(v: Seq<(F32Bits, F32Bits)>)
    ensures
        pairs(coords(v)) == v,
{
    assert(pairs(coords(v)) =~= v) by {
        assert forall|i: int| 0 <= i < v.len() implies pairs(coords(v))[i] == v[i] by {
            assert((2 * i) % 2 == 0 && (2 * i) / 2 == i);
            assert((2 * i + 1) % 2 == 1 && (2 * i + 1) / 2 == i);
        }
    }
}

/// A line comes before the others.
proof fn lemma_split_line(a: Seq<char>, b: Seq<char>)
    requires
        forall|i: int| 0 <= i < a.len() ==> a[i] != '\n',
    ensures
        text::split(a + seq!['\n'] + b, '\n') == seq![a] + text::split(b, '\n'),
{
    let s = a + seq!['\n'] + b;
    let k = a.len() as int;
    assert forall|i: int| 0 <= i < k implies s[i] != '\n' by {
        assert(s[i] == a[i]);
    }
    assert(s[k] == '\n');
    text::lemma_find(s, '\n', k);
    assert(s.take(k) =~= a);
    assert(s.skip(k + 1) =~= b);
}

/// The lines of a unit, without what separates them.
pub open spec fn unit_lines(b: Batch, texts: Seq<Seq<char>>, at: int) -> Seq<Seq<char>> {
    let head = seq![
        seq!['c', '\r'],
        (seq!['s', ' '] + style_text(b.style, texts, at)).push('\r'),
    ];
    if b.vertices.len() == 0 {
        head
    } else {
        head.push(
            (seq![
                if b.style is Line {
                    'l'
                } else {
                    't'
                },
                ' ',
            ] + joined(texts, at + style_floats(b.style).len(), 2 * b.vertices.len())).push('\r'),
        )
    }
}

/// A line without line breaks in what is neither its command nor its end.
proof fn lemma_unbroken(l: Seq<char>, c: char, t: Seq<char>)
    requires
        l == (seq![c, ' '] + t).push('\r'),
        c != '\n',
        forall|i: int| 0 <= i < t.len() ==> !text::is_space(#[trigger] t[i]),
    ensures
        forall|i: int| 0 <= i < l.len() ==> #[trigger] l[i] != '\n',
{
    assert forall|i: int| 0 <= i < l.len() implies #[trigger] l[i] != '\n' by {
        if 2 <= i < t.len() + 2 {
            assert(l[i] == t[i - 2]);
        }
    }
}

/// Two lines come before the others.
proof fn lemma_split_two(a: Seq<char>, b: Seq<char>, rest: Seq<char>)
    requires
        forall|i: int| 0 <= i < a.len() ==> a[i] != '\n',
        forall|i: int| 0 <= i < b.len() ==> b[i] != '\n',
    ensures
        text::split(a + seq!['\n'] + (b + seq!['\n'] + rest), '\n') == seq![a, b] + text::split(
            rest,
            '\n',
        ),
{
    lemma_split_line(a, b + seq!['\n'] + rest);
    lemma_split_line(b, rest);
    assert(seq![a] + (seq![b] + text::split(rest, '\n')) =~= seq![a, b] + text::split(rest, '\n'));
}

#[verifier::spinoff_prover]
proof fn lemma_unit_split(b: Batch, texts: Seq<Seq<char>>, at: int, rest: Seq<char>)
    requires
        whole_style(b.style),
        all_tokens(texts),
        0 <= at,
        at + unit_floats(b).len() <= texts.len(),
    ensures
        text::split(unit_text(b, texts, at) + rest, '\n') == unit_lines(b, texts, at)
            + text::split(rest, '\n'),
{
    let st = style_text(b.style, texts, at);
    let n = style_floats(b.style).len() as int;
    ru::lemma_vertex_floats(b.vertices, b.vertices.len());
    lemma_style_text(b.style, texts, at);
    lemma_glued_solid(style_fields(b.style, texts, at));
    let l1 = seq!['c', '\r'];
    let l2 = (seq!['s', ' '] + st).push('\r');
    lemma_unbroken(l2, 's', st);
    if b.vertices.len() == 0 {
        lemma_split_two(l1, l2, rest);
        assert(unit_text(b, texts, at) + rest =~= l1 + seq!['\n'] + (l2 + seq!['\n'] + rest));
    } else {
        let k = 2 * b.vertices.len();
        let v = joined(texts, at + n, k);
        let c = if b.style is Line {
            'l'
        } else {
            't'
        };
        let f = texts.subrange(at + n, at + n + k);
        lemma_joined(texts, at + n, k);
        assert forall|i: int| 0 <= i < f.len() implies is_token(#[trigger] f[i]) by {
            assert(f[i] == texts[at + n + i]);
        }
        lemma_glued_solid(f);
        let l3 = (seq![c, ' '] + v).push('\r');
        lemma_unbroken(l3, c, v);
        let tail = l3 + seq!['\n'] + rest;
        lemma_split_two(l1, l2, tail);
        lemma_split_line(l3, rest);
        assert(unit_text(b, texts, at) + rest =~= l1 + seq!['\n'] + (l2 + seq!['\n'] + tail));
        assert(seq![l1, l2] + (seq![l3] + text::split(rest, '\n')) =~= unit_lines(b, texts, at)
            + text::split(rest, '\n'));
    }
}

/// What has been read of the first `k` units.
pub open spec fn read_units(u: Seq<Batch>, k: nat) -> Seq<Draft> {
    Seq::new(k, |i: int| Draft { style: u[i].style, coords: coords(u[i].vertices) })
}

/// A draft before anything is known of it.
pub open spec fn blank() -> Draft {
    Draft { style: Look::Solid { color: 0 }, coords: Seq::empty() }
}

/// The commands are told apart.
proof fn lemma_commands()
    ensures
        seq!['c'] != seq!['s'],
        seq!['c'] != seq!['t'],
        seq!['c'] != seq!['l'],
        seq!['s'] != seq!['c'],
        seq!['s'] != seq!['t'],
        seq!['s'] != seq!['l'],
        seq!['t'] != seq!['c'],
        seq!['t'] != seq!['s'],
        seq!['l'] != seq!['c'],
        seq!['l'] != seq!['s'],
{
    assert(seq!['c'][0] == 'c' && seq!['s'][0] == 's');
    assert(seq!['t'][0] == 't' && seq!['l'][0] == 'l');
}

/// Reading goes on to `next` by a line that starts a unit.
#[verifier::opaque]
spec fn begins(r: Reading, line: Seq<char>, next: Reading) -> bool {
    &&& with_line(r, line) == Ok::<Reading, Trouble>(next)
    &&& starts_unit(line)
    &&& forall|in_unit: bool| #[trigger]
        line_tokens(line, in_unit) == Seq::<Seq<char>>::empty()
}

/// Reading goes on to `next` by a line within a unit, of which `t` is taken for floats.
#[verifier::opaque]
spec fn takes(r: Reading, line: Seq<char>, next: Reading, t: Seq<Seq<char>>) -> bool {
    &&& with_line(r, line) == Ok::<Reading, Trouble>(next)
    &&& line_tokens(line, true) == t
}

/// Reading the lines `a` comes to reading the lines `b` from `next` on, when `t` has
/// been taken for floats.
#[verifier::opaque]
spec fn leads(
    r: Reading,
    a: Seq<Seq<char>>,
    next: Reading,
    b: Seq<Seq<char>>,
    t: Seq<Seq<char>>,
) -> bool {
    &&& with_lines(r, a) == with_lines(next, b)
    &&& forall|in_unit: bool| #[trigger] tokens(a, in_unit) == t + tokens(b, true)
}

/// The line that starts a unit.
proof fn lemma_first_line(r: Reading)
    ensures
        begins(r, seq!['c', '\r'], Reading { units: r.units.push(blank()), ..r }),
{
    reveal(begins);
    lemma_commands();
    lemma_unit_line();
}

/// The line of a style.
proof fn lemma_style_line(r: Reading, s: Look, texts: Seq<Seq<char>>, at: int)
    requires
        r.units.len() > 0,
        whole_style(s),
        all_tokens(texts),
        0 <= at,
        at + style_floats(s).len() <= texts.len(),
        style_floats(s).len() <= r.floats.len(),
        forall|i: int|
            0 <= i < style_floats(s).len() ==> #[trigger] r.floats[i] == Some(
                bits(style_floats(s)[i]),
            ),
    ensures
        ({
            let line = (seq!['s', ' '] + style_text(s, texts, at)).push('\r');
            let last = r.units.len() - 1;
            takes(
                r,
                line,
                Reading {
                    units: r.units.update(last, Draft { style: s, ..r.units[last] }),
                    floats: r.floats.skip(style_floats(s).len() as int),
                },
                texts.subrange(at, at + style_floats(s).len()),
            )
        }),
{
    reveal(takes);
    let f = style_fields(s, texts, at);
    let st = style_text(s, texts, at);
    lemma_commands();
    lemma_style_text(s, texts, at);
    lemma_glued_solid(f);
    lemma_split_glued(f);
    lemma_line('s', st);
    lemma_style(s, texts, at, r.floats);
    assert(texts.subrange(at, at + style_floats(s).len()).len() == style_floats(s).len());
}

/// The line of the vertices.
proof fn lemma_vertex_line(r: Reading, c: char, t: Seq<Seq<char>>, coords: Seq<F32Bits>)
    requires
        r.units.len() > 0,
        r.units[r.units.len() - 1].coords == Seq::<F32Bits>::empty(),
        c == 't' || c == 'l',
        all_tokens(t),
        t.len() > 0,
        t.len() == coords.len(),
        coords.len() <= r.floats.len(),
        forall|i: int| 0 <= i < coords.len() ==> #[trigger] r.floats[i] == Some(coords[i]),
    ensures
        ({
            let line = (seq![c, ' '] + glued(t)).push('\r');
            let last = r.units.len() - 1;
            takes(
                r,
                line,
                Reading {
                    units: r.units.update(last, Draft { coords, ..r.units[last] }),
                    floats: r.floats.skip(coords.len() as int),
                },
                t,
            )
        }),
{
    reveal(takes);
    lemma_commands();
    lemma_glued_solid(t);
    lemma_split_glued(t);
    lemma_filled(t);
    lemma_line(c, glued(t));
    lemma_more_coords(r.floats, coords, coords.len());
    assert(coords.take(coords.len() as int) =~= coords);
}

/// A line that starts a unit and one within it are read one after the other.
proof fn lemma_two_lines(
    r0: Reading,
    r1: Reading,
    r2: Reading,
    ul: Seq<Seq<char>>,
    lines: Seq<Seq<char>>,
    t: Seq<Seq<char>>,
)
    requires
        ul.len() == 2,
        begins(r0, ul[0], r1),
        takes(r1, ul[1], r2, t),
    ensures
        leads(r0, ul + lines, r2, lines, t),
{
    reveal(begins);
    reveal(takes);
    reveal(leads);
    let rest = seq![ul[1]] + lines;
    assert((ul + lines).skip(1) =~= rest);
    assert(rest.skip(1) =~= lines);
    assert((ul + lines)[0] == ul[0] && rest[0] == ul[1]);
    assert(with_lines(r0, ul + lines) == with_lines(r1, rest));
    assert(tokens(rest, true) == t + tokens(lines, true));
    assert forall|in_unit: bool| #[trigger]
        tokens(ul + lines, in_unit) == t + tokens(lines, true) by {
        assert(line_tokens(ul[0], in_unit) == Seq::<Seq<char>>::empty());
        assert(tokens(ul + lines, in_unit) =~= tokens(rest, true));
    }
}

/// One more line within a unit is read.
proof fn lemma_next_line(
    r: Reading,
    a: Seq<Seq<char>>,
    r2: Reading,
    line: Seq<char>,
    r3: Reading,
    lines: Seq<Seq<char>>,
    t: Seq<Seq<char>>,
    v: Seq<Seq<char>>,
)
    requires
        leads(r, a, r2, seq![line] + lines, t),
        takes(r2, line, r3, v),
    ensures
        leads(r, a, r3, lines, t + v),
{
    reveal(takes);
    reveal(leads);
    let rest = seq![line] + lines;
    assert(rest.skip(1) =~= lines);
    assert(rest[0] == line);
    assert(with_lines(r2, rest) == with_lines(r3, lines));
    assert(tokens(rest, true) == v + tokens(lines, true));
    assert(t + (v + tokens(lines, true)) =~= (t + v) + tokens(lines, true));
}

/// The lines of a unit are read as the unit, and its texts are taken for floats.
proof fn lemma_unit_read(
    u: Seq<Batch>,
    k: nat,
    texts: Seq<Seq<char>>,
    lines: Seq<Seq<char>>,
)
    requires
        k < u.len(),
        whole_style(u[k as int].style),
        all_tokens(texts),
        texts.len() == floats_of(u, u.len()).len(),
        floats_of(u, k).len() + unit_floats(u[k as int]).len() <= texts.len(),
        forall|i: int|
            0 <= i < unit_floats(u[k as int]).len() ==> #[trigger] floats_of(u, u.len())[floats_of(
                u,
                k,
            ).len() + i] == unit_floats(u[k as int])[i],
    ensures
        ({
            let at = floats_of(u, k).len() as int;
            let all = read_floats(floats_of(u, u.len()));
            let b = u[k as int];
            let next = at + unit_floats(b).len();
            leads(
                Reading { units: read_units(u, k), floats: all.skip(at) },
                unit_lines(b, texts, at) + lines,
                Reading { units: read_units(u, k + 1), floats: all.skip(next) },
                lines,
                texts.subrange(at, next),
            )
        }),
{
    let at = floats_of(u, k).len() as int;
    let every = floats_of(u, u.len());
    let all = read_floats(every);
    let b = u[k as int];
    let n = style_floats(b.style).len() as int;
    let m = 2 * b.vertices.len();
    let next = at + unit_floats(b).len();
    let ul = unit_lines(b, texts, at);
    let head = ul.take(2);
    let styled = Draft { style: b.style, ..blank() };
    lemma_vertex_bits(b.vertices, b.vertices.len());
    let r0 = Reading { units: read_units(u, k), floats: all.skip(at) };
    let r1 = Reading { units: r0.units.push(blank()), ..r0 };
    let r2 = Reading { units: r1.units.update(k as int, styled), floats: all.skip(at + n) };
    lemma_first_line(r0);
    assert forall|i: int| 0 <= i < n implies #[trigger] r1.floats[i] == Some(
        bits(style_floats(b.style)[i]),
    ) by {
        assert(every[at + i] == unit_floats(b)[i]);
    }
    lemma_style_line(r1, b.style, texts, at);
    assert(all.skip(at).skip(n) =~= all.skip(at + n));
    let st = texts.subrange(at, at + n);
    assert(takes(r1, head[1], r2, st));
    if b.vertices.len() == 0 {
        assert(head =~= ul);
        lemma_two_lines(r0, r1, r2, head, lines, st);
        assert(coords(b.vertices) =~= Seq::<F32Bits>::empty());
        assert(r2.units =~= read_units(u, k + 1));
    } else {
        let c = if b.style is Line {
            'l'
        } else {
            't'
        };
        let t = texts.subrange(at + n, at + n + m);
        let cs = coords(b.vertices);
        lemma_joined(texts, at + n, m);
        assert forall|i: int| 0 <= i < t.len() implies is_token(#[trigger] t[i]) by {
            assert(t[i] == texts[at + n + i]);
        }
        assert forall|i: int| 0 <= i < cs.len() implies #[trigger] r2.floats[i] == Some(cs[i]) by {
            assert(every[at + (n + i)] == unit_floats(b)[n + i]);
            assert(unit_floats(b)[n + i] == vertex_floats(b.vertices, b.vertices.len())[i]);
        }
        lemma_vertex_line(r2, c, t, cs);
        let r3 = Reading {
            units: r2.units.update(k as int, Draft { coords: cs, ..styled }),
            floats: all.skip(next),
        };
        assert(r2.floats.skip(m as int) =~= all.skip(next));
        assert(takes(r2, ul[2], r3, t));
        assert(r3.units =~= read_units(u, k + 1));
        lemma_two_lines(r0, r1, r2, head, seq![ul[2]] + lines, st);
        assert(ul + lines =~= head + (seq![ul[2]] + lines));
        lemma_next_line(r0, ul + lines, r2, ul[2], r3, lines, st, t);
        assert(st + t =~= texts.subrange(at, next));
    }
}

/// The lines of the units from the `k`-th on.
pub open spec fn text_from(u: Seq<Batch>, texts: Seq<Seq<char>>, k: nat) -> Seq<char>
    decreases u.len() - k,
{
    if k >= u.len() {
        Seq::empty()
    } else {
        unit_text(u[k as int], texts, floats_of(u, k).len() as int) + text_from(u, texts, k + 1)
    }
}

proof fn lemma_text_from(u: Seq<Batch>, texts: Seq<Seq<char>>, k: nat)
    requires
        k <= u.len(),
    ensures
        units_text(u, texts, u.len()) == units_text(u, texts, k) + text_from(u, texts, k),
    decreases u.len() - k,
{
    if k < u.len() {
        lemma_text_from(u, texts, k + 1);
        let b = unit_text(u[k as int], texts, floats_of(u, k).len() as int);
        assert(units_text(u, texts, k + 1) == units_text(u, texts, k) + b);
        assert(units_text(u, texts, k) + b + text_from(u, texts, k + 1) =~= units_text(u, texts, k)
            + (b + text_from(u, texts, k + 1)));
    } else {
        assert(units_text(u, texts, k) + Seq::<char>::empty() =~= units_text(u, texts, k));
    }
}

proof fn lemma_floats_prefix(u: Seq<Batch>, k: nat, n: nat)
    requires
        k < n <= u.len(),
    ensures
        floats_of(u, k).len() + unit_floats(u[k as int]).len() <= floats_of(u, n).len(),
        forall|i: int|
            0 <= i < unit_floats(u[k as int]).len() ==> #[trigger] floats_of(u, n)[floats_of(
                u,
                k,
            ).len() + i] == unit_floats(u[k as int])[i],
    decreases n,
{
    if k < n - 1 {
        lemma_floats_prefix(u, k, (n - 1) as nat);
        let at = floats_of(u, k).len();
        let x = unit_floats(u[k as int]);
        let most = floats_of(u, (n - 1) as nat);
        assert forall|i: int| 0 <= i < x.len() implies #[trigger] floats_of(u, n)[at + i] == x[i] by {
            assert(most[at + i] == x[i]);
        }
    }
}

proof fn lemma_read_from(u: Seq<Batch>, texts: Seq<Seq<char>>, k: nat)
    requires
        k <= u.len(),
        forall|i: int| 0 <= i < u.len() ==> whole_style((#[trigger] u[i]).style),
        all_tokens(texts),
        texts.len() == floats_of(u, u.len()).len(),
    ensures
        ({
            let at = floats_of(u, k).len() as int;
            let all = read_floats(floats_of(u, u.len()));
            let lines = text::split(text_from(u, texts, k), '\n');
            &&& at <= texts.len()
            &&& with_lines(Reading { units: read_units(u, k), floats: all.skip(at) }, lines) == Ok::<
                Reading,
                Trouble,
            >(Reading { units: read_units(u, u.len()), floats: all.skip(all.len() as int) })
            &&& forall|in_unit: bool| #[trigger] tokens(lines, in_unit) == texts.skip(at)
        }),
    decreases u.len() - k,
{
    let at = floats_of(u, k).len() as int;
    let all = read_floats(floats_of(u, u.len()));
    let rest = text_from(u, texts, k);
    let lines = text::split(rest, '\n');
    if k < u.len() {
        let b = u[k as int];
        lemma_read_from(u, texts, k + 1);
        lemma_floats_prefix(u, k, u.len());
        assert(whole_style(u[k as int].style));
        let later = text_from(u, texts, k + 1);
        lemma_unit_split(b, texts, at, later);
        lemma_unit_read(u, k, texts, text::split(later, '\n'));
        reveal(leads);
        let next = at + unit_floats(b).len();
        assert(floats_of(u, k + 1).len() == next);
        assert forall|in_unit: bool| #[trigger] tokens(lines, in_unit) == texts.skip(at) by {
            assert(tokens(unit_lines(b, texts, at) + text::split(later, '\n'), in_unit)
                == texts.subrange(at, next) + tokens(text::split(later, '\n'), true));
            assert(texts.subrange(at, next) + texts.skip(next) =~= texts.skip(at));
        }
    } else {
        text::lemma_find(rest, '\n', 0);
        assert(lines =~= seq![Seq::<char>::empty()]);
        let blank = Seq::<char>::empty();
        assert(text::trim(blank) == blank);
        assert(lines.skip(1) =~= Seq::empty());
        let r = Reading { units: read_units(u, k), floats: all.skip(at) };
        assert(with_line(r, lines[0]) == Ok::<Reading, Trouble>(r));
        assert(with_lines(r, lines) == with_lines(r, lines.skip(1)));
        assert forall|in_unit: bool| #[trigger] tokens(lines, in_unit) == texts.skip(at) by {
            assert(line_tokens(lines[0], in_unit) =~= Seq::empty());
            assert(tokens(lines.skip(1), in_unit) =~= Seq::empty());
            assert(texts.skip(at) =~= Seq::empty());
            assert(tokens(lines, in_unit) =~= Seq::empty());
        }
    }
}

/// Geometry comes back from its text: the texts that were given for its floats are
/// what is taken for floats, and where each is read as the float it stands for, the
/// geometry is as it was.
pub proof fn law_ru_roundtrip(u: Seq<Batch>, texts: Seq<Seq<char>>)
    requires
        forall|i: int| 0 <= i < u.len() ==> whole_style((#[trigger] u[i]).style),
        all_tokens(texts),
        texts.len() == floats_of(u, u.len()).len(),
    ensures
        tokens(text::split(units_text(u, texts, u.len()), '\n'), false) == texts,
        geometry_of(units_text(u, texts, u.len()), read_floats(floats_of(u, u.len()))) == Ok::<
            Seq<Batch>,
            Trouble,
        >(u),
{
    let all = read_floats(floats_of(u, u.len()));
    lemma_read_from(u, texts, 0);
    lemma_text_from(u, texts, 0);
    let s = units_text(u, texts, u.len());
    assert(s =~= text_from(u, texts, 0));
    assert(texts.skip(0) =~= texts);
    assert(all.skip(0) =~= all);
    assert(read_units(u, 0) =~= Seq::<Draft>::empty());
    let lines = text::split(text_from(u, texts, 0), '\n');
    assert(tokens(lines, false) == texts.skip(0));
    assert(finished(read_units(u, u.len())) =~= u) by {
        assert forall|i: int| 0 <= i < u.len() implies finished(read_units(u, u.len()))[i] == u[i] by {
            lemma_pairs(u[i].vertices);
        }
    }
}

} // verus!
