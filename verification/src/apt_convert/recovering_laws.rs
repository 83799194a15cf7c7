//! What a movie recovered from a SWF file says of the file.
use super::defining_laws::same_color;
use super::narrow::nearest;
use super::placing_laws::{law_recovered, recovered};
use super::reading;
use super::recovering::{self, Draft, Tag, Timeline};
use super::singles::{fraction, grown, shrunk, signed_fraction};
use super::swf_model as scene;
use super::swf_movie::Rgba;
use super::swf_read::{self, Contents, FilterParts, FixedColors, FixedMatrix, GradientData};
use crate::apt::file_format::{half, lemma_half, lemma_word, word};
use crate::apt::model::{Character, CharacterSlot, Control, Filter, Import};
use vstd::arithmetic::power2::{lemma2_to64, lemma_pow2_adds, pow2};
use vstd::prelude::*;

verus! {

/// Whether a bit pattern is that of a single no further from `n / d` than half of its last
/// digit: 24 digits `q` times two to the power `up - down`.
pub open spec fn close_at(bits: int, n: nat, d: nat, q: int, up: nat, down: nat) -> bool {
    &&& 0x80_0000 <= q <= 0x100_0000
    &&& bits == (149 + up - down) * 0x80_0000 + q
    &&& -(d * pow2(up)) <= 2 * (q * (d * pow2(up)) - n * pow2(down)) <= d * pow2(up)
}

/// Whether a bit pattern is that of the single nearest to `n / d`.
pub open spec fn close(bits: int, n: nat, d: nat) -> bool {
    if n == 0 {
        bits == 0
    } else {
        exists|q: int, up: nat, down: nat| #[trigger] close_at(bits, n, d, q, up, down)
    }
}

/// Whether a bit pattern is that of the single nearest to `v / d`, with its sign.
pub open spec fn near(bits: u32, v: int, d: nat) -> bool {
    if v < 0 {
        bits >= 0x8000_0000 && close(bits - 0x8000_0000, (-v) as nat, d)
    } else {
        close(bits as int, v as nat, d)
    }
}

proof fn lemma_nearest(m: nat, d: nat)
    requires
        0 < d,
        0x80_0000 * d <= m < 0x100_0000 * d,
    ensures
        0x80_0000 <= nearest(m, d) <= 0x100_0000,
        -(d as int) <= 2 * (nearest(m, d) * d - m) <= d,
{
    let q = m / d;
    let r = m % d;
    assert(m == q * d + r && 0 <= r < d && 0x80_0000 <= q < 0x100_0000) by (nonlinear_arith)
        requires
            0 < d,
            q == m / d,
            r == m % d,
            0x80_0000 * d <= m < 0x100_0000 * d,
    ;
    assert((q + 1) * d == q * d + d) by (nonlinear_arith);
}

proof fn lemma_grown(n: nat, d: nat, up: nat, down: nat, n0: nat, d0: nat)
    requires
        0 < n < 0x100_0000 * d,
        0 < d,
        d == d0 * pow2(up),
        n == n0 * pow2(down),
    ensures
        exists|q: int, u: nat, w: nat|
            #[trigger] close_at(grown(n, d, up - down), n0, d0, q, u, w),
    decreases 0x100_0000 * d - n,
{
    if n < 0x80_0000 * d {
        lemma2_to64();
        lemma_pow2_adds(down, 1);
        assert(2 * n == n0 * pow2(down + 1)) by (nonlinear_arith)
            requires
                n == n0 * pow2(down),
                pow2(down + 1) == pow2(down) * 2,
        ;
        lemma_grown(2 * n, d, up, down + 1, n0, d0);
        assert(up - (down + 1) == up - down - 1);
        assert(grown(n, d, up - down) == grown(2 * n, d, up - down - 1));
    } else {
        lemma_nearest(n, d);
        assert(close_at(grown(n, d, up - down), n0, d0, nearest(n, d) as int, up, down));
    }
}

proof fn lemma_shrunk(n: nat, d: nat, up: nat, d0: nat)
    requires
        0 < n,
        0 < d,
        d == d0 * pow2(up),
    ensures
        exists|q: int, u: nat, w: nat|
            #[trigger] close_at(shrunk(n, d, up as int), n, d0, q, u, w),
    decreases n - d,
{
    lemma2_to64();
    if n >= 0x100_0000 * d {
        lemma_pow2_adds(up, 1);
        assert(2 * d == d0 * pow2(up + 1)) by (nonlinear_arith)
            requires
                d == d0 * pow2(up),
                pow2(up + 1) == pow2(up) * 2,
        ;
        lemma_shrunk(n, 2 * d, up + 1, d0);
        assert(shrunk(n, d, up as int) == shrunk(n, 2 * d, up as int + 1));
    } else {
        assert(n == n * pow2(0)) by (nonlinear_arith)
            requires
                pow2(0) == 1,
        ;
        lemma_grown(n, d, up, 0, n, d0);
        assert(shrunk(n, d, up as int) == grown(n, d, up - 0));
    }
}

/// A fraction becomes the nearest single.
pub proof fn law_fraction(n: nat, d: nat)
    requires
        0 < d,
    ensures
        close(fraction(n, d), n, d),
{
    if n > 0 {
        lemma2_to64();
        assert(d == d * pow2(0)) by (nonlinear_arith)
            requires
                pow2(0) == 1,
        ;
        lemma_shrunk(n, d, 0, d);
    } else {
        assert(shrunk(n, d, 0) == grown(n, d, 0));
    }
}

proof fn lemma_grown_range(n: nat, d: nat, e: int, k: nat)
    requires
        0 < d,
        0 < n < 0x100_0000 * d,
        e <= 100,
        e >= k - 110,
        n * pow2(k) >= 0x80_0000 * d,
    ensures
        0 <= grown(n, d, e) < 0x8000_0000,
    decreases 0x100_0000 * d - n,
{
    lemma2_to64();
    if n < 0x80_0000 * d {
        if k == 0 {
            assert(n * pow2(k) == n) by (nonlinear_arith)
                requires
                    pow2(k) == 1,
            ;
        }
        let j = (k - 1) as nat;
        lemma_pow2_adds(j, 1);
        assert((2 * n) * pow2(j) == n * pow2(k)) by (nonlinear_arith)
            requires
                pow2(k) == pow2(j) * 2,
        ;
        lemma_grown_range(2 * n, d, e - 1, j);
    } else {
        lemma_nearest(n, d);
    }
}

proof fn lemma_shrunk_range(n: nat, d: nat, e: nat)
    requires
        0 < d,
        0 < n <= 0x8000_0000,
        d <= 0x1_0000,
        e < 17,
        pow2(e) <= d,
    ensures
        0 <= shrunk(n, d, e as int) < 0x8000_0000,
    decreases n - d,
{
    lemma2_to64();
    if n >= 0x100_0000 * d {
        lemma_pow2_adds(e, 1);
        assert(d <= 128);
        if e >= 8 {
            vstd::arithmetic::power2::lemma_pow2_strictly_increases(7, e);
        }
        lemma_shrunk_range(n, 2 * d, e + 1);
        assert(shrunk(n, d, e as int) == shrunk(n, 2 * d, e as int + 1));
    } else {
        assert(n * pow2(64) >= 0x80_0000 * d) by (nonlinear_arith)
            requires
                n >= 1,
                d <= 0x1_0000,
                pow2(64) == 0x1_0000_0000_0000_0000,
        ;
        lemma_grown_range(n, d, e as int, 64);
        assert(shrunk(n, d, e as int) == grown(n, d, e as int));
    }
}

/// A signed number becomes the nearest single.
proof fn lemma_near(v: i32, d: nat)
    requires
        0 < d <= 0x1_0000,
    ensures
        near(signed_fraction(v as int, d) as u32, v as int, d),
{
    lemma2_to64();
    let n = if v < 0 {
        (-v) as nat
    } else {
        v as nat
    };
    law_fraction(n, d);
    if n > 0 {
        lemma_shrunk_range(n, d, 0);
    }
}

/// The numbers of a matrix and of a rectangle are the singles nearest to those of a SWF
/// file: 16.16 fixed-point factors, and twips, of which twenty make a pixel.
pub proof fn law_numbers(m: FixedMatrix)
    ensures
        ({
            let r = recovering::matrix(m);
            &&& near(r.a, m.a as int, 0x1_0000)
            &&& near(r.b, m.b as int, 0x1_0000)
            &&& near(r.c, m.c as int, 0x1_0000)
            &&& near(r.d, m.d as int, 0x1_0000)
            &&& near(r.tx, m.tx as int, 20)
            &&& near(r.ty, m.ty as int, 20)
        }),
{
    lemma_near(m.a, 0x1_0000);
    lemma_near(m.b, 0x1_0000);
    lemma_near(m.c, 0x1_0000);
    lemma_near(m.d, 0x1_0000);
    lemma_near(m.tx, 20);
    lemma_near(m.ty, 20);
}

/// The colors of a SWF file keep what they do to each channel: a factor of 256 is one,
/// which the byte 254 stands for, and those beyond a byte are held within it. What is
/// added is kept in the low byte.
pub proof fn law_colors(c: FixedColors, scale: Rgba, bias: Rgba)
    requires
        same_color(scale, recovering::cxform(c).scale),
        same_color(bias, recovering::cxform(c).bias),
    ensures
        byte_of(scale.r, c.r_multiply),
        byte_of(scale.g, c.g_multiply),
        byte_of(scale.b, c.b_multiply),
        byte_of(scale.a, c.a_multiply),
        0 <= c.r_add <= 255 ==> bias.r == c.r_add,
        0 <= c.g_add <= 255 ==> bias.g == c.g_add,
        0 <= c.b_add <= 255 ==> bias.b == c.b_add,
        0 <= c.a_add <= 255 ==> bias.a == c.a_add,
{
    let s = recovering::scale_byte(c.r_multiply);
    lemma_parts(
        scale,
        Rgba {
            r: recovering::scale_byte(c.r_multiply),
            g: recovering::scale_byte(c.g_multiply),
            b: recovering::scale_byte(c.b_multiply),
            a: recovering::scale_byte(c.a_multiply),
        },
    );
    lemma_parts(
        bias,
        Rgba { r: c.r_add as u8, g: c.g_add as u8, b: c.b_add as u8, a: c.a_add as u8 },
    );
}

/// Whether a byte stands for a factor.
pub open spec fn byte_of(b: u8, v: i16) -> bool {
    &&& v <= 0 ==> b == 0
    &&& 0 <= v <= 256 ==> 256 * b <= 254 * v < 256 * (b + 1)
    &&& v >= 258 ==> b == 255
}

proof fn lemma_parts(p: Rgba, q: Rgba)
    requires
        0x100_0000 * p.a + 0x1_0000 * p.r + 0x100 * p.g + p.b == 0x100_0000 * q.a + 0x1_0000 * q.r
            + 0x100 * q.g + q.b,
    ensures
        p == q,
{
    let c = 0x100_0000 * p.a + 0x1_0000 * p.r + 0x100 * p.g + p.b;
    assert(c / 0x100_0000 == p.a && c / 0x100_0000 == q.a);
    assert(c / 0x1_0000 == 0x100 * p.a + p.r && c / 0x1_0000 == 0x100 * q.a + q.r);
    assert(c / 0x100 == 0x1_0000 * p.a + 0x100 * p.r + p.g && c / 0x100 == 0x1_0000 * q.a + 0x100
        * q.r + q.g);
}

/// Whether a tag starts at `p`: ten bits of code over six of length, or, where these are
/// all set, a length of four bytes behind them.
pub open spec fn tag_stands(d: Seq<u8>, p: int, t: Tag, end: int) -> bool {
    let len = half(d, p) % 64;
    let body = if len == 63 {
        p + 6
    } else {
        p + 2
    };
    &&& 0 <= p && body <= end <= d.len()
    &&& t.code == half(d, p) / 64
    &&& end == if len == 63 {
        body + word(d, p + 2)
    } else {
        body + len
    }
    &&& t.all == d.subrange(p, end)
    &&& t.body == d.subrange(body, end)
}

/// Whether tags stand one behind the other from `p` on, up to one of code 0.
pub open spec fn tags_stand(d: Seq<u8>, p: int, v: Seq<Tag>) -> bool
    decreases v.len(),
{
    if v.len() == 0 {
        0 <= p && p + 2 <= d.len() && half(d, p) / 64 == 0
    } else {
        exists|end: int|
            #![trigger tag_stands(d, p, v[0], end)]
            tag_stands(d, p, v[0], end) && v[0].code != 0 && tags_stand(d, end, v.skip(1))
    }
}

/// The tags that are read from a file are those that stand in it.
pub proof fn law_tags(d: Seq<u8>, version: u8, p: int)
    requires
        0 <= p,
        recovering::tags(d, version, p) is Some,
    ensures
        tags_stand(d, p, recovering::tags(d, version, p)->0),
    decreases d.len() - p,
{
    lemma_half(d, p);
    lemma_word(d, p + 2);
    let (code, body, end) = recovering::tag_at(d, p)->0;
    let v = recovering::tags(d, version, p)->0;
    if code != 0 {
        law_tags(d, version, end);
        let t = Tag { code, all: d.subrange(p, end), body: d.subrange(body, end) };
        let rest = recovering::tags(d, version, end)->0;
        assert(v.skip(1) =~= rest);
        assert(v[0] == t);
        assert(tag_stands(d, p, v[0], end));
    }
}

/// A stage is as large as the file says, to the nearest pixel of twenty twips, and a frame
/// takes as long as the file's frames per second give it, to the nearest millisecond.
pub proof fn law_stage(c: Contents, d: Draft)
    ensures
        ({
            let m = recovering::movie(c, d);
            let w = c.x_max - c.x_min;
            let h = c.y_max - c.y_min;
            let r = c.frame_rate;
            &&& w <= 0 ==> m.width == 0
            &&& w > 0 ==> -10 < 20 * m.width - w <= 10
            &&& h <= 0 ==> m.height == 0
            &&& h > 0 ==> -10 < 20 * m.height - h <= 10
            &&& r > 0 ==> -r < 2 * (m.ms_per_frame * r - 256_000) <= r
            &&& r <= 0 ==> m.ms_per_frame == 33
            &&& m.imports == d.imports
            &&& m.exports == d.exports
            &&& m.characters == d.slots
        }),
{
    let r = c.frame_rate as int;
    if r > 0 {
        let q = (512_000 + r) / (2 * r);
        assert(q * r * 2 <= 512_000 + r < q * r * 2 + 2 * r && 0 <= q <= 512_000 + r)
            by (nonlinear_arith)
            requires
                r > 0,
                q == (512_000 + r) / (2 * r),
        ;
    }
}

/// A file that ends in `.swf` holds the movie of its name without that; any other is
/// named as it is.
pub proof fn law_movie_name(url: Seq<char>, movie: Seq<char>)
    ensures
        recovering::movie_name(movie + seq!['.', 's', 'w', 'f']) == movie,
        recovering::movie_name(url) == url || recovering::movie_name(url) + seq![
            '.',
            's',
            'w',
            'f',
        ] == url,
{
    let long = movie + seq!['.', 's', 'w', 'f'];
    assert(long.skip(long.len() - 4) =~= seq!['.', 's', 'w', 'f']);
    assert(long.take(long.len() - 4) =~= movie);
    let n = url.len() - 4;
    if n >= 0 && url.skip(n) == seq!['.', 's', 'w', 'f'] {
        assert(url.take(n) + url.skip(n) =~= url);
    }
}

/// Filters keep their parameters: fixed-point numbers keep their bits, and the second
/// color of a bevel is that of its highlight.
pub proof fn law_filters(f: FilterParts, g: GradientData, bevel: bool)
    ensures
        recovering::drop_shadow(f) matches Filter::DropShadow {
            color,
            blur_x,
            blur_y,
            angle,
            distance,
            strength,
            flags,
        } && color == f.color && blur_x == f.blur_x as u32 && blur_y == f.blur_y as u32 && angle
            == f.angle as u32 && distance == f.distance as u32 && strength == f.strength as u16
            && flags == f.flags,
        recovering::blur(f) matches Filter::Blur { blur_x, blur_y, flags } && blur_x
            == f.blur_x as u32 && blur_y == f.blur_y as u32 && flags == f.flags,
        recovering::glow(f) matches Filter::Glow { color, blur_x, blur_y, strength, flags } && color
            == f.color && blur_x == f.blur_x as u32 && blur_y == f.blur_y as u32 && strength
            == f.strength as u16 && flags == f.flags,
        recovering::bevel(f) matches Filter::Bevel {
            highlight_color,
            shadow_color,
            blur_x,
            blur_y,
            angle,
            distance,
            strength,
            flags,
        } && highlight_color == f.second && shadow_color == f.color && blur_x == f.blur_x as u32
            && blur_y == f.blur_y as u32 && angle == f.angle as u32 && distance
            == f.distance as u32 && strength == f.strength as u16 && flags == f.flags,
        recovering::gradient(g, bevel) matches Filter::GradientGlow {
            is_bevel,
            colors,
            ratios,
            blur_x,
            blur_y,
            angle,
            distance,
            strength,
            flags,
        } && is_bevel == bevel && colors == g.colors && ratios == g.ratios && blur_x
            == g.blur_x as u32 && blur_y == g.blur_y as u32 && angle == g.angle as u32 && distance
            == g.distance as u32 && strength == g.strength as u16 && flags == g.flags,
{
}

/// Whether a filter is of the kind that a SWF file gives it.
pub open spec fn kind_stands(f: recovering::Filters, i: int, x: Filter) -> bool {
    ||| i < f.shadows.len() && f.shadows[i] is Some && x is DropShadow
    ||| i < f.blurs.len() && f.blurs[i] is Some && x is Blur
    ||| i < f.glows.len() && f.glows[i] is Some && x is Glow
    ||| i < f.bevels.len() && f.bevels[i] is Some && x is Bevel
    ||| i < f.gradient_glows.len() && f.gradient_glows[i] is Some && x is GradientGlow && !(
    x->is_bevel)
    ||| i < f.gradient_bevels.len() && f.gradient_bevels[i] is Some && x is GradientGlow
        && x->is_bevel
    ||| i < f.color_matrices.len() && f.color_matrices[i] is Some && x == (Filter::ColorMatrix {
        values: f.color_matrices[i]->0,
    })
}

/// How many of the first `n` filters have a counterpart.
pub open spec fn kept_before(f: recovering::Filters, n: int) -> int
    decreases n,
{
    if n <= 0 {
        0
    } else {
        kept_before(f, n - 1) + if recovering::filter_at(f, n - 1) is Some {
            1int
        } else {
            0
        }
    }
}

/// Filters keep their kinds and their order.
pub proof fn law_filter_list(f: recovering::Filters, n: nat)
    ensures
        recovering::filters(f, n).len() == kept_before(f, n as int),
        forall|i: int|
            #![trigger recovering::filter_at(f, i)]
            0 <= i < n && recovering::filter_at(f, i) is Some ==> 0 <= kept_before(f, i)
                < kept_before(f, n as int) && kind_stands(
                f,
                i,
                recovering::filters(f, n)[kept_before(f, i)],
            ),
    decreases n,
{
    if n > 0 {
        law_filter_list(f, (n - 1) as nat);
    }
}

/// Whether a tag gives a control: placements, removals, code and labels do, and on the
/// root timeline the background color and code that prepares a sprite.
pub open spec fn controls(code: u16, root: bool) -> bool {
    ||| code == 4 || code == 26 || code == 70 || code == 94
    ||| code == 5 || code == 28
    ||| code == 12
    ||| code == 43
    ||| root && (code == 9 || code == 59)
}

/// Whether a control is the one that a tag gives.
#[verifier::opaque]
pub open spec fn does(t: Tag, version: u8, c: Control) -> bool {
    match c {
        Control::PlaceObject(p) => {
            &&& t.code == 4 || t.code == 26 || t.code == 70 || t.code == 94
            &&& swf_read::place_in(t.all, version) is Some
            &&& recovered(
                p,
                recovering::Placed {
                    core: swf_read::place_in(t.all, version)->0,
                    matrix: swf_read::matrix_in(t.all, version),
                    colors: swf_read::colors_in(t.all, version),
                    clips: swf_read::clips_in(t.all, version),
                    filters: recovering::filters_in(t.all, version),
                },
            )
        },
        Control::RemoveObject { depth } => {
            ||| t.code == 5 && t.body.len() >= 4 && depth == half(t.body, 2)
            ||| t.code == 28 && t.body.len() >= 2 && depth == half(t.body, 0)
        },
        Control::Action(s) => t.code == 12 && (reading::block(t.body) matches Ok(r) && r == s),
        Control::FrameLabel(s) => t.code == 43 && swf_read::label_in(t.all, version) == Some(s),
        Control::BackgroundColor(x) => t.code == 9 && t.body.len() >= 3 && same_color(
            Rgba { r: t.body[0], g: t.body[1], b: t.body[2], a: 255 },
            x,
        ),
        Control::InitAction { sprite_id, actions } => t.code == 59 && t.body.len() >= 2
            && sprite_id == half(t.body, 0) && (reading::block(t.body.skip(2)) matches Ok(r) && r
            == actions),
        _ => false,
    }
}

/// How many of the first `i` tags show a frame.
pub open spec fn shows_before(v: Seq<Tag>, i: int) -> int
    decreases i,
{
    if i <= 0 {
        0
    } else {
        shows_before(v, i - 1) + if v[i - 1].code == 1 {
            1int
        } else {
            0
        }
    }
}

/// How many controls the frame that is being built has before the `i`-th tag.
pub open spec fn since(v: Seq<Tag>, root: bool, i: int) -> int
    decreases i,
{
    if i <= 0 || v[i - 1].code == 1 {
        0
    } else {
        since(v, root, i - 1) + if controls(v[i - 1].code, root) {
            1int
        } else {
            0
        }
    }
}

/// The controls of a frame, the last one being that which is not shown yet.
pub open spec fn frame_of(t: Timeline, k: int) -> Seq<Control> {
    if k < t.frames.len() {
        t.frames[k].controls
    } else {
        t.pending
    }
}

/// Whether a timeline is that of the first `n` tags: a frame for each tag that shows one,
/// and in it the controls of the tags since the one before, in their order.
pub open spec fn laid(v: Seq<Tag>, version: u8, root: bool, n: int, t: Timeline) -> bool {
    &&& t.frames.len() == shows_before(v, n)
    &&& t.pending.len() == since(v, root, n)
    &&& forall|i: int|
        #![trigger v[i]]
        0 <= i < n && v[i].code == 1 ==> 0 <= shows_before(v, i) < t.frames.len()
            && t.frames[shows_before(v, i)].controls.len() == since(v, root, i)
    &&& forall|i: int|
        #![trigger v[i]]
        0 <= i < n && controls(v[i].code, root) ==> 0 <= shows_before(v, i) <= t.frames.len() && 0
            <= since(v, root, i) < frame_of(t, shows_before(v, i)).len() && does(
            v[i],
            version,
            frame_of(t, shows_before(v, i))[since(v, root, i)],
        )
}

proof fn lemma_counts(v: Seq<Tag>, root: bool, i: int, n: int)
    requires
        0 <= i <= n,
    ensures
        0 <= shows_before(v, i) <= shows_before(v, n),
        0 <= since(v, root, n),
        shows_before(v, i) == shows_before(v, n) ==> since(v, root, i) <= since(v, root, n),
        i < n && v[i].code == 1 ==> shows_before(v, i) < shows_before(v, n),
    decreases n,
{
    if n > i {
        lemma_counts(v, root, i, n - 1);
    } else if i > 0 {
        lemma_counts(v, root, i - 1, i - 1);
    }
}

proof fn lemma_show(v: Seq<Tag>, version: u8, root: bool, n: int, t: Timeline)
    requires
        0 <= n < v.len(),
        v[n].code == 1,
        laid(v, version, root, n, t),
    ensures
        laid(v, version, root, n + 1, t.show()),
{
    let u = t.show();
    assert forall|i: int| #![trigger v[i]] 0 <= i < n + 1 && v[i].code == 1 implies {
        &&& 0 <= shows_before(v, i) < u.frames.len()
        &&& u.frames[shows_before(v, i)].controls.len() == since(v, root, i)
    } by {
        lemma_counts(v, root, i, n);
    }
    assert forall|i: int| #![trigger v[i]] 0 <= i < n + 1 && controls(v[i].code, root) implies {
        &&& 0 <= shows_before(v, i) <= u.frames.len()
        &&& 0 <= since(v, root, i) < frame_of(u, shows_before(v, i)).len()
        &&& does(v[i], version, frame_of(u, shows_before(v, i))[since(v, root, i)])
    } by {
        lemma_counts(v, root, i, n);
        assert(frame_of(u, shows_before(v, i)) == frame_of(t, shows_before(v, i)));
    }
}

proof fn lemma_put(v: Seq<Tag>, version: u8, root: bool, n: int, t: Timeline, c: Control)
    requires
        0 <= n < v.len(),
        controls(v[n].code, root),
        does(v[n], version, c),
        laid(v, version, root, n, t),
    ensures
        laid(v, version, root, n + 1, t.put(c)),
{
    let u = t.put(c);
    lemma_counts(v, root, n, n);
    assert forall|i: int| #![trigger v[i]] 0 <= i < n + 1 && controls(v[i].code, root) implies {
        &&& 0 <= shows_before(v, i) <= u.frames.len()
        &&& 0 <= since(v, root, i) < frame_of(u, shows_before(v, i)).len()
        &&& does(v[i], version, frame_of(u, shows_before(v, i))[since(v, root, i)])
    } by {
        lemma_counts(v, root, i, n);
        if i < n {
            assert(does(v[i], version, frame_of(t, shows_before(v, i))[since(v, root, i)]));
        }
    }
}

proof fn lemma_pass(v: Seq<Tag>, version: u8, root: bool, n: int, t: Timeline)
    requires
        0 <= n < v.len(),
        v[n].code != 1,
        !controls(v[n].code, root),
        laid(v, version, root, n, t),
    ensures
        laid(v, version, root, n + 1, t),
{
}

proof fn lemma_control(t: Tag, version: u8)
    ensures
        recovering::timeline_control(t, version) matches Ok(r) ==> match r {
            Some(c) => controls(t.code, false) && does(t, version, c),
            None => !controls(t.code, false),
        },
{
    reveal(does);
    lemma_half(t.body, 0);
    lemma_half(t.body, 2);
    if let Some(core) = swf_read::place_in(t.all, version) {
        law_recovered(
            recovering::Placed {
                core,
                matrix: swf_read::matrix_in(t.all, version),
                colors: swf_read::colors_in(t.all, version),
                clips: swf_read::clips_in(t.all, version),
                filters: recovering::filters_in(t.all, version),
            },
        );
    }
}

/// The timeline of a sprite is that of its tags.
pub proof fn law_sprite_timeline(v: Seq<Tag>, version: u8, n: nat)
    requires
        n <= v.len(),
    ensures
        recovering::sprite_timeline(v, version, n) matches Ok(t) ==> laid(
            v,
            version,
            false,
            n as int,
            t,
        ),
    decreases n,
{
    if n > 0 {
        law_sprite_timeline(v, version, (n - 1) as nat);
        if let Ok(t) = recovering::sprite_timeline(v, version, (n - 1) as nat) {
            if v[n - 1].code == 1 {
                lemma_show(v, version, false, n - 1, t);
            } else {
                lemma_control(v[n - 1], version);
                match recovering::timeline_control(v[n - 1], version) {
                    Ok(Some(c)) => {
                        lemma_put(v, version, false, n - 1, t, c);
                    },
                    Ok(None) => {
                        lemma_pass(v, version, false, n - 1, t);
                    },
                    _ => {},
                }
            }
        }
    }
}

/// What one tag does to the timeline of a movie.
proof fn lemma_step(d: Draft, t: Tag, version: u8)
    ensures
        recovering::step(d, t, version) matches Ok(e) ==> if t.code == 1 {
            e.timeline == d.timeline.show()
        } else if controls(t.code, true) {
            exists|c: Control| #[trigger] does(t, version, c) && e.timeline == d.timeline.put(c)
        } else {
            e.timeline == d.timeline
        },
{
    reveal(recovering::step);
    lemma_control(t, version);
    lemma_half(t.body, 0);
    if let Ok(e) = recovering::step(d, t, version) {
        if t.code == 9 {
            let c = e.timeline.pending.last();
            assert(does(t, version, c)) by {
                reveal(does);
            }
        } else if t.code == 59 {
            let c = e.timeline.pending.last();
            assert(does(t, version, c)) by {
                reveal(does);
            }
        } else if recovering::is_import(t.code) {
            let (url, v) = swf_read::imports_in(t.all, version)->0;
            lemma_imported(d, url, v, v.len());
        } else if controls(t.code, true) {
            let c = (recovering::timeline_control(t, version)->Ok_0)->0;
            assert(does(t, version, c));
        }
    }
}

/// Whether the `i`-th asset of a file is the import behind the first `m` and `i`.
pub open spec fn named_at(
    w: Seq<Import>,
    m: int,
    url: Seq<char>,
    v: Seq<scene::Asset>,
    i: int,
) -> bool {
    &&& w[m + i].movie == recovering::movie_name(url)
    &&& w[m + i].name == v[i].name
    &&& w[m + i].character_id == v[i].id
}

proof fn lemma_imported(d: Draft, url: Seq<char>, v: Seq<scene::Asset>, n: nat)
    requires
        n <= v.len(),
    ensures
        ({
            let e = recovering::imported(d, url, v, n);
            &&& e.timeline == d.timeline
            &&& e.exports == d.exports
            &&& e.imports.len() == d.imports.len() + n
            &&& e.imports.take(d.imports.len() as int) == d.imports
            &&& forall|i: int|
                0 <= i < n ==> #[trigger] named_at(e.imports, d.imports.len() as int, url, v, i)
            &&& d.slots.len() <= e.slots.len()
            &&& forall|k: int| 0 <= k < d.slots.len() ==> #[trigger] e.slots[k] == d.slots[k]
            &&& forall|k: int|
                d.slots.len() <= k < e.slots.len() ==> #[trigger] e.slots[k] is Empty
            &&& forall|i: int| 0 <= i < n ==> (#[trigger] v[i]).id < e.slots.len()
        }),
    decreases n,
{
    if n > 0 {
        lemma_imported(d, url, v, (n - 1) as nat);
        let b = recovering::imported(d, url, v, (n - 1) as nat);
        let e = recovering::imported(d, url, v, n);
        assert(e.imports.take(d.imports.len() as int) =~= b.imports.take(d.imports.len() as int));
        let m = d.imports.len() as int;
        assert forall|i: int| 0 <= i < n implies #[trigger] named_at(
            e.imports,
            m,
            url,
            v,
            i,
        ) by {
            if i < n - 1 {
                assert(named_at(b.imports, m, url, v, i));
                assert(e.imports[m + i] == b.imports[m + i]);
            }
        }
    } else {
        assert(d.imports.take(d.imports.len() as int) =~= d.imports);
    }
}

/// The root timeline of a movie is that of its file's tags.
pub proof fn law_root_timeline(v: Seq<Tag>, version: u8, n: nat)
    requires
        n <= v.len(),
    ensures
        recovering::steps(v, version, n) matches Ok(d) ==> laid(
            v,
            version,
            true,
            n as int,
            d.timeline,
        ),
    decreases n,
{
    if n > 0 {
        law_root_timeline(v, version, (n - 1) as nat);
        if let Ok(d) = recovering::steps(v, version, (n - 1) as nat) {
            let x = v[n - 1];
            lemma_step(d, x, version);
            if let Ok(e) = recovering::step(d, x, version) {
                if x.code == 1 {
                    lemma_show(v, version, true, n - 1, d.timeline);
                } else if controls(x.code, true) {
                    let c = choose|c: Control| #[trigger]
                        does(x, version, c) && e.timeline == d.timeline.put(c);
                    lemma_put(v, version, true, n - 1, d.timeline, c);
                } else {
                    lemma_pass(v, version, true, n - 1, d.timeline);
                }
            }
        }
    }
}

/// Whether a slot holds what a tag defines under an id.
#[verifier::opaque]
pub open spec fn fills(t: Tag, version: u8, id: int, s: CharacterSlot) -> bool {
    match s {
        CharacterSlot::Character(Character::Sprite(frames)) => t.code == 39 && t.body.len() >= 4
            && id == half(t.body, 0) && (recovering::sprite(t.body, version) matches Ok(f) && f
            == frames),
        CharacterSlot::Character(Character::Shape(x)) => {
            &&& t.code == 2 || t.code == 22 || t.code == 32 || t.code == 83
            &&& swf_read::shape_head_in(t.all, version) matches Some(h) && id == h.id && near(
                x.bounds.left,
                h.x_min as int,
                20,
            ) && near(x.bounds.top, h.y_min as int, 20) && near(
                x.bounds.right,
                h.x_max as int,
                20,
            ) && near(x.bounds.bottom, h.y_max as int, 20)
            &&& x.bitmap_character_id is None
        },
        CharacterSlot::Character(Character::Morph(x)) => (t.code == 46 || t.code == 84)
            && t.body.len() >= 2 && id == half(t.body, 0) && x.start_character_id == 0
            && x.end_character_id == 0,
        _ => false,
    }
}

/// Whether a tag defines a character that a movie keeps.
pub open spec fn keeps(code: u16) -> bool {
    ||| code == 39
    ||| code == 2 || code == 22 || code == 32 || code == 83
    ||| code == 46 || code == 84
}

/// Whether a tag defines a character that a movie leaves empty: buttons, texts and fonts.
pub open spec fn leaves(code: u16) -> bool {
    ||| code == 7 || code == 34
    ||| code == 11 || code == 33 || code == 37
    ||| code == 10 || code == 48 || code == 75 || code == 91
}

/// The character that a tag defines: its first number.
pub open spec fn tag_id(t: Tag, version: u8) -> int {
    match swf_read::shape_head_in(t.all, version) {
        Some(h) => if t.code == 2 || t.code == 22 || t.code == 32 || t.code == 83 {
            h.id as int
        } else {
            half(t.body, 0) as int
        },
        None => half(t.body, 0) as int,
    }
}

/// Whether slots are others with one of them filled, those between being empty.
pub open spec fn set_at(
    s: Seq<CharacterSlot>,
    r: Seq<CharacterSlot>,
    id: int,
) -> bool {
    &&& s.len() <= r.len()
    &&& id < r.len()
    &&& r.len() == s.len() || r.len() == id + 1
    &&& forall|k: int| 0 <= k < s.len() && k != id ==> #[trigger] r[k] == s[k]
    &&& forall|k: int| s.len() <= k < r.len() && k != id ==> #[trigger] r[k] is Empty
}

/// A tag that defines a character fills its slot with that, and changes no other; the root
/// stays the first. One of a kind that is not kept has an empty slot, as have imports.
/// No other tag touches the characters, and none but those for them the imports and
/// exports.
#[verifier::rlimit(40)]
pub proof fn law_characters(d: Draft, t: Tag, version: u8)
    ensures
        recovering::step(d, t, version) matches Ok(e) ==> {
            &&& keeps(t.code) ==> e.imports == d.imports && e.exports == d.exports
            &&& keeps(t.code) ==> {
                let id = tag_id(t, version);
                &&& id == 0 ==> e.slots == d.slots
                &&& id != 0 ==> set_at(d.slots, e.slots, id) && fills(t, version, id, e.slots[id])
            }
            &&& leaves(t.code) ==> {
                let id = half(t.body, 0) as int;
                &&& t.body.len() >= 2
                &&& set_at(d.slots, e.slots, id)
                &&& id < d.slots.len() ==> e.slots[id] == d.slots[id]
                &&& id >= d.slots.len() ==> e.slots[id] is Empty
            }
            &&& t.code == 56 ==> {
                &&& swf_read::exports_in(t.all, version) matches Some(v) && e.exports.len()
                    == d.exports.len() + v.len() && e.exports.take(d.exports.len() as int)
                    == d.exports && forall|i: int|
                    #![trigger v[i]]
                    0 <= i < v.len() ==> e.exports[d.exports.len() + i].name == v[i].name
                        && e.exports[d.exports.len() + i].character_id == v[i].id
            }
            &&& t.code != 56 ==> e.exports == d.exports
            &&& t.code != 57 && t.code != 71 ==> e.imports == d.imports
            &&& t.code == 57 || t.code == 71 ==> {
                &&& swf_read::imports_in(t.all, version) matches Some((url, v)) && e.imports.len()
                    == d.imports.len() + v.len() && e.imports.take(d.imports.len() as int)
                    == d.imports && forall|i: int|
                    0 <= i < v.len() ==> #[trigger] named_at(
                        e.imports,
                        d.imports.len() as int,
                        url,
                        v,
                        i,
                    )
            }
            &&& !keeps(t.code) && !leaves(t.code) && t.code != 57 && t.code != 71 ==> e.slots
                == d.slots
        },
{
    lemma_half(t.body, 0);
    if let Ok(e) = recovering::step(d, t, version) {
        if keeps(t.code) {
            lemma_kept(d, t, version);
            reveal(recovering::step);
        } else if t.code == 57 || t.code == 71 {
            reveal(recovering::step);
            let (url, v) = swf_read::imports_in(t.all, version)->0;
            lemma_imported(d, url, v, v.len());
        } else if t.code == 56 {
            reveal(recovering::step);
            let v = swf_read::exports_in(t.all, version)->0;
            assert(e.exports.take(d.exports.len() as int) =~= d.exports);
            assert forall|i: int| #![trigger v[i]] 0 <= i < v.len() implies e.exports[
                d.exports.len() + i
            ].name == v[i].name && e.exports[d.exports.len() + i].character_id == v[i].id by {
                assert(e.exports[d.exports.len() + i] == recovering::exported(v)[i]);
            }
        } else {
            reveal(recovering::step);
        }
    }
}

proof fn lemma_kept(d: Draft, t: Tag, version: u8)
    requires
        keeps(t.code),
    ensures
        recovering::step(d, t, version) matches Ok(e) ==> {
            let id = tag_id(t, version);
            &&& id == 0 ==> e.slots == d.slots
            &&& id != 0 ==> set_at(d.slots, e.slots, id) && fills(t, version, id, e.slots[id])
        },
{
    lemma_half(t.body, 0);
    reveal(recovering::step);
    reveal(fills);
    if let Ok(e) = recovering::step(d, t, version) {
        if t.code == 2 || t.code == 22 || t.code == 32 || t.code == 83 {
            let h = swf_read::shape_head_in(t.all, version)->0;
            lemma_near(h.x_min, 20);
            lemma_near(h.y_min, 20);
            lemma_near(h.x_max, 20);
            lemma_near(h.y_max, 20);
        }
    }
}

/// Every character of a recovered movie is one that a tag of the file defines.
pub proof fn law_all_characters(v: Seq<Tag>, version: u8, n: nat, id: int)
    requires
        n <= v.len(),
        recovering::steps(v, version, n) is Ok,
    ensures
        ({
            let s = recovering::steps(v, version, n)->Ok_0.slots;
            &&& s.len() > 0 && s[0] is Root
            &&& 0 <= id < s.len() && s[id] is Character ==> exists|i: int|
                0 <= i < n && fills(#[trigger] v[i], version, id, s[id])
        }),
    decreases n,
{
    if n > 0 {
        law_all_characters(v, version, (n - 1) as nat, id);
        let d = recovering::steps(v, version, (n - 1) as nat)->Ok_0;
        let e = recovering::steps(v, version, n)->Ok_0;
        let t = v[n - 1];
        law_characters(d, t, version);
        lemma_half(t.body, 0);
        if t.code == 57 || t.code == 71 {
            reveal(recovering::step);
            let (url, w) = swf_read::imports_in(t.all, version)->0;
            lemma_imported(d, url, w, w.len());
        } else if keeps(t.code) && id == tag_id(t, version) && id != 0 {
            assert(fills(v[n - 1], version, id, e.slots[id]));
        }
    }
}

/// A tag stops a movie from being recovered only where it cannot be read: where its parts
/// are not there, or the code that it holds is damaged.
pub proof fn law_faults(d: Draft, t: Tag, version: u8)
    ensures
        recovering::step(d, t, version) is Err <==> {
            ||| t.code == 39 && recovering::sprite(t.body, version) is Err
            ||| (t.code == 2 || t.code == 22 || t.code == 32 || t.code == 83)
                && swf_read::shape_head_in(t.all, version) is None
            ||| (t.code == 46 || t.code == 84 || leaves(t.code)) && t.body.len() < 2
            ||| t.code == 56 && swf_read::exports_in(t.all, version) is None
            ||| (t.code == 57 || t.code == 71) && swf_read::imports_in(t.all, version) is None
            ||| t.code == 9 && t.body.len() < 3
            ||| t.code == 59 && (t.body.len() < 2 || reading::block(t.body.skip(2)) is Err)
            ||| t.code == 5 && t.body.len() < 4
            ||| t.code == 28 && t.body.len() < 2
            ||| t.code == 12 && reading::block(t.body) is Err
            ||| t.code == 43 && swf_read::label_in(t.all, version) is None
            ||| (t.code == 4 || t.code == 26 || t.code == 70 || t.code == 94) && (
            swf_read::place_in(t.all, version) is None || damaged(
                swf_read::clips_in(t.all, version),
            ))
        },
{
    reveal(recovering::step);
    if let Some(v) = swf_read::clips_in(t.all, version) {
        lemma_damaged(v, v.len());
    }
}

/// Whether the code of a handler cannot be read.
pub open spec fn damaged(clips: Option<Seq<scene::ClipHandler>>) -> bool {
    clips matches Some(v) && exists|i: int|
        0 <= i < v.len() && reading::block((#[trigger] v[i]).code) is Err
}

proof fn lemma_damaged(v: Seq<scene::ClipHandler>, n: nat)
    requires
        n <= v.len(),
    ensures
        recovering::handlers_fault(v, n) is Some <==> exists|i: int|
            0 <= i < n && reading::block((#[trigger] v[i]).code) is Err,
    decreases n,
{
    if n > 0 {
        lemma_damaged(v, (n - 1) as nat);
        if reading::block(v[n - 1].code) is Err {
            assert(v[n - 1] == v[n - 1]);
        }
    }
}

} // verus!
