//! What the outlines of a shape hold of its edges.
use super::geometry::{
    self, border, leads, strokes, walked, Key, Pen, Point, Segment, TaggedEdge,
};
use super::swf_read::{EdgeStep, StyleChange};
use vstd::prelude::*;

verus! {

/// The segment drawn the other way.
pub open spec fn backwards(s: Segment) -> Segment {
    Segment { from: s.to, to: s.from }
}

/// How often a segment is among the first `n`.
pub open spec fn times(v: Seq<Segment>, s: Segment, n: int) -> int
    decreases n,
{
    if n <= 0 {
        0
    } else {
        times(v, s, n - 1) + if v[n - 1] == s {
            1int
        } else {
            0
        }
    }
}

/// Whether a style of a table is this one. Styles count from one.
pub open spec fn is_style(table: usize, style: Option<u32>, k: Key) -> bool {
    style matches Some(n) && n != 0 && n == k.style && table == k.table
}

/// How often the first `n` edges have the fill `k` to the right of this segment: drawn
/// like it with the fill as the second style, or drawn backwards with it as the first.
pub open spec fn sides(v: Seq<TaggedEdge>, k: Key, s: Segment, n: int) -> int
    decreases n,
{
    if n <= 0 {
        0
    } else {
        let e = v[n - 1];
        sides(v, k, s, n - 1) + if is_style(e.table, e.fill1, k) && e.segment == s {
            1int
        } else {
            0
        } + if is_style(e.table, e.fill0, k) && backwards(e.segment) == s {
            1int
        } else {
            0
        }
    }
}

proof fn lemma_push(v: Seq<Segment>, x: Segment, s: Segment, n: int)
    requires
        n <= v.len(),
    ensures
        times(v.push(x), s, n) == times(v, s, n),
    decreases n,
{
    if n > 0 {
        lemma_push(v, x, s, n - 1);
    }
}

proof fn lemma_pushed(v: Seq<Segment>, x: Segment, s: Segment)
    ensures
        times(v.push(x), s, v.len() as int + 1) == times(v, s, v.len() as int) + if x == s {
            1int
        } else {
            0
        },
{
    lemma_push(v, x, s, v.len() as int);
}

/// The border of a fill holds a segment as often as edges have the fill to the right of
/// it: an edge in its own direction where its second style is the fill, and backwards
/// where its first one is.
pub proof fn law_border(v: Seq<TaggedEdge>, k: Key, s: Segment, n: nat)
    requires
        n <= v.len(),
    ensures
        times(border(v, k, n), s, border(v, k, n).len() as int) == sides(v, k, s, n as int),
    decreases n,
{
    if n > 0 {
        law_border(v, k, s, (n - 1) as nat);
        let e = v[n - 1];
        let a = border(v, k, (n - 1) as nat);
        lemma_pushed(a, e.segment, s);
        lemma_pushed(a, backwards(e.segment), s);
        lemma_pushed(a.push(e.segment), backwards(e.segment), s);
    }
}

proof fn lemma_some(v: Seq<Segment>, s: Segment, n: int)
    requires
        n <= v.len(),
        times(v, s, n) > 0,
    ensures
        v.contains(s),
    decreases n,
{
    if n > 0 {
        if v[n - 1] == s {
            assert(v.contains(s));
        } else {
            lemma_some(v, s, n - 1);
        }
    }
}

proof fn lemma_sides(v: Seq<TaggedEdge>, k: Key, s: Segment, i: int, n: int)
    requires
        0 <= i < n <= v.len(),
        ({
            let e = v[i];
            ||| is_style(e.table, e.fill1, k) && e.segment == s
            ||| is_style(e.table, e.fill0, k) && backwards(e.segment) == s
        }),
    ensures
        sides(v, k, s, n) > 0,
    decreases n,
{
    lemma_sides_low(v, k, s, n - 1);
    if i < n - 1 {
        lemma_sides(v, k, s, i, n - 1);
    }
}

proof fn lemma_sides_low(v: Seq<TaggedEdge>, k: Key, s: Segment, n: int)
    ensures
        sides(v, k, s, n) >= 0,
    decreases n,
{
    if n > 0 {
        lemma_sides_low(v, k, s, n - 1);
    }
}

/// An edge that borders on a fill, on either side, is in the border of that fill.
pub proof fn law_edges_border(v: Seq<TaggedEdge>, k: Key, i: int)
    requires
        0 <= i < v.len(),
    ensures
        is_style(v[i].table, v[i].fill1, k) ==> border(v, k, v.len()).contains(v[i].segment),
        is_style(v[i].table, v[i].fill0, k) ==> border(v, k, v.len()).contains(
            backwards(v[i].segment),
        ),
{
    let e = v[i];
    let b = border(v, k, v.len());
    if is_style(e.table, e.fill1, k) {
        law_border(v, k, e.segment, v.len());
        lemma_sides(v, k, e.segment, i, v.len() as int);
        lemma_some(b, e.segment, b.len() as int);
    }
    if is_style(e.table, e.fill0, k) {
        law_border(v, k, backwards(e.segment), v.len());
        lemma_sides(v, k, backwards(e.segment), i, v.len() as int);
        lemma_some(b, backwards(e.segment), b.len() as int);
    }
}

/// The same edges drawn backwards, with their two fills exchanged.
pub open spec fn mirrored(v: Seq<TaggedEdge>) -> Seq<TaggedEdge> {
    Seq::new(
        v.len(),
        |i: int|
            TaggedEdge {
                segment: backwards(v[i].segment),
                fill0: v[i].fill1,
                fill1: v[i].fill0,
                ..v[i]
            },
    )
}

proof fn lemma_mirrored(v: Seq<TaggedEdge>, k: Key, s: Segment, n: int)
    requires
        n <= v.len(),
    ensures
        sides(mirrored(v), k, s, n) == sides(v, k, s, n),
    decreases n,
{
    if n > 0 {
        lemma_mirrored(v, k, s, n - 1);
    }
}

/// Drawing backwards with the fills exchanged borders the same areas: every segment is
/// in the border of a fill as often as before.
pub proof fn law_mirrored(v: Seq<TaggedEdge>, k: Key, s: Segment)
    ensures
        ({
            let a = border(v, k, v.len());
            let b = border(mirrored(v), k, v.len());
            times(a, s, a.len() as int) == times(b, s, b.len() as int)
        }),
{
    law_border(v, k, s, v.len());
    law_border(mirrored(v), k, s, v.len());
    lemma_mirrored(v, k, s, v.len() as int);
}

/// The border grows edge by edge: what later edges add comes behind.
pub proof fn law_border_order(v: Seq<TaggedEdge>, k: Key, m: nat, n: nat)
    requires
        m <= n <= v.len(),
    ensures
        border(v, k, m).len() <= border(v, k, n).len(),
        border(v, k, n).take(border(v, k, m).len() as int) == border(v, k, m),
    decreases n - m,
{
    let a = border(v, k, m);
    if m < n {
        law_border_order(v, k, m, (n - 1) as nat);
        let b = border(v, k, (n - 1) as nat);
        let c = border(v, k, n);
        assert(c.take(a.len() as int) =~= b.take(a.len() as int));
    } else {
        assert(a.take(a.len() as int) =~= a);
    }
}

/// How often the first `n` edges draw this segment in a line style.
pub open spec fn drawn(v: Seq<TaggedEdge>, k: Key, s: Segment, n: int) -> int
    decreases n,
{
    if n <= 0 {
        0
    } else {
        let e = v[n - 1];
        drawn(v, k, s, n - 1) + if is_style(e.table, e.line, k) && e.segment == s {
            1int
        } else {
            0
        }
    }
}

/// The strokes of a line style hold a segment as often as edges draw it in that style,
/// and they come in the order in which they are drawn.
pub proof fn law_strokes(v: Seq<TaggedEdge>, k: Key, s: Segment, m: nat, n: nat)
    requires
        m <= n <= v.len(),
    ensures
        times(strokes(v, k, n), s, strokes(v, k, n).len() as int) == drawn(v, k, s, n as int),
        strokes(v, k, m).len() <= strokes(v, k, n).len(),
        strokes(v, k, n).take(strokes(v, k, m).len() as int) == strokes(v, k, m),
    decreases n,
{
    let a = strokes(v, k, m);
    if m == n {
        assert(a.take(a.len() as int) =~= a);
        if n > 0 {
            law_strokes(v, k, s, (n - 1) as nat, (n - 1) as nat);
            lemma_pushed(strokes(v, k, (n - 1) as nat), v[n - 1].segment, s);
        }
    } else {
        law_strokes(v, k, s, m, (n - 1) as nat);
        let b = strokes(v, k, (n - 1) as nat);
        lemma_pushed(b, v[n - 1].segment, s);
        let c = strokes(v, k, n);
        assert(c.take(a.len() as int) =~= b.take(a.len() as int));
    }
}

/// Whether a segment carries the styles of a pen.
pub open spec fn in_styles(e: TaggedEdge, pen: Pen) -> bool {
    &&& e.fill0 == pen.fill0
    &&& e.fill1 == pen.fill1
    &&& e.line == pen.line
    &&& e.table == pen.table
}

/// The segments alone.
pub open spec fn bare(v: Seq<TaggedEdge>) -> Seq<Segment> {
    Seq::new(v.len(), |i: int| v[i].segment)
}

/// Whether a pen that changes as `c` says becomes `q`: it goes where it is told to, takes
/// the styles that are given, and keeps the others, unless new tables of styles begin.
pub open spec fn becomes(p: Pen, c: StyleChange, i: int, q: Pen) -> bool {
    &&& q.at == match c.move_to {
        Some((x, y)) => Point { x, y },
        None => p.at,
    }
    &&& c.fill0 is Some ==> q.fill0 == c.fill0
    &&& c.fill1 is Some ==> q.fill1 == c.fill1
    &&& c.line is Some ==> q.line == c.line
    &&& c.fill0 is None ==> q.fill0 == if c.renewed {
        None
    } else {
        p.fill0
    }
    &&& c.fill1 is None ==> q.fill1 == if c.renewed {
        None
    } else {
        p.fill1
    }
    &&& c.line is None ==> q.line == if c.renewed {
        None
    } else {
        p.line
    }
    &&& !c.renewed ==> q.table == p.table
    &&& c.renewed && i < usize::MAX ==> q.table == i + 1
}

/// Where a pen that draws an edge comes to.
pub open spec fn reached(p: Point, e: EdgeStep) -> (int, int) {
    match e {
        EdgeStep::Line { dx, dy } => (p.x + dx, p.y + dy),
        EdgeStep::Curve { cx, cy, ax, ay } => (p.x + cx + ax, p.y + cy + ay),
    }
}

/// Walking the records of a shape: drawing starts at the origin in no style. A change of
/// styles draws nothing. An edge is drawn from where the pen is to where it leads,
/// without a gap, in the styles of the pen; a straight one as a single segment.
pub proof fn law_records(
    changes: Seq<Option<StyleChange>>,
    edges: Seq<Option<EdgeStep>>,
    n: nat,
)
    requires
        n < changes.len() == edges.len(),
        changes.len() < usize::MAX,
    ensures
        walked(changes, edges, 0).0.len() == 0,
        walked(changes, edges, 0).1 == (Pen {
            at: Point { x: 0, y: 0 },
            fill0: None,
            fill1: None,
            line: None,
            table: 0,
        }),
        ({
            let (a, p) = walked(changes, edges, n);
            let (b, q) = walked(changes, edges, n + 1);
            &&& a.len() <= b.len()
            &&& b.take(a.len() as int) == a
            &&& changes[n as int] matches Some(c) ==> b == a && becomes(p, c, n as int, q)
            &&& changes[n as int] is None && edges[n as int] is None ==> b == a && q == p
            &&& changes[n as int] is None ==> (edges[n as int] matches Some(e) ==> {
                let new = b.skip(a.len() as int);
                &&& q.fill0 == p.fill0 && q.fill1 == p.fill1 && q.line == p.line && q.table
                    == p.table
                &&& forall|i: int| 0 <= i < new.len() ==> in_styles(#[trigger] new[i], p)
                &&& leads(bare(new), p.at, q.at)
                &&& e is Line ==> new.len() == 1
                &&& e matches EdgeStep::Line { dx, dy } ==> (i32::MIN <= p.at.x + dx <= i32::MAX
                    && i32::MIN <= p.at.y + dy <= i32::MAX ==> (q.at.x as int, q.at.y as int)
                    == reached(p.at, e))
                &&& e matches EdgeStep::Curve { cx, cy, ax, ay } ==> (i32::MIN <= p.at.x + cx
                    <= i32::MAX && i32::MIN <= p.at.y + cy <= i32::MAX && i32::MIN <= p.at.x + cx
                    + ax <= i32::MAX && i32::MIN <= p.at.y + cy + ay <= i32::MAX ==> (
                    q.at.x as int,
                    q.at.y as int,
                ) == reached(p.at, e))
            })
        }),
{
    let (a, p) = walked(changes, edges, n);
    let (b, q) = walked(changes, edges, n + 1);
    assert(a.take(a.len() as int) =~= a);
    if changes[n as int] is None {
        if let Some(e) = edges[n as int] {
            let s = p.drawn(e);
            let new = b.skip(a.len() as int);
            assert(b == a + p.tagged(s));
            assert(b.take(a.len() as int) =~= a);
            assert(new =~= p.tagged(s));
            assert(bare(new) =~= s);
            match e {
                EdgeStep::Line { dx, dy } => {
                    assert(s.drop_last() =~= Seq::<Segment>::empty());
                    assert(leads(s.drop_last(), p.at, p.at));
                },
                EdgeStep::Curve { cx, cy, ax, ay } => {
                    geometry::law_flattened(p.at, p.at.shifted(cx, cy), p.end(e));
                },
            }
        }
    }
}

} // verus!
