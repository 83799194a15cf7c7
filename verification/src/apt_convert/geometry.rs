//! Outlines of fills and lines from the edges of a SWF shape.
//!
//! SWF stores a shape as a flat list of edges (straight or quadratic-curve), each
//! carrying up to two fill styles (the style to its left and to its right) and a
//! line style. To get to triangle lists, curved edges are flattened to line
//! segments, and the segments of each fill style are chained into closed contours:
//! an edge contributes to the contour of the fill to its right in its own
//! direction, and to that of the fill to its left reversed. Triangulating the
//! contours is up to the caller; [`ShapeOutline::assemble`] takes what comes of it.
//!
//! Gradients are approximated by the color of their first stop.
use super::from_swf::pixels;
use super::recovering;
use super::swf_read::{self, lists, tables, EdgeStep, ImagePaint, ShapeHead, StyleChange};
use crate::apt::types::F32Bits;
use crate::apt_aux::ru::{batches, Batch, Look, RenderUnit, ShapeGeometry, Style};
use vstd::prelude::*;

verus! {

/// A point in twips.
#[derive(Debug, Clone, Copy, PartialEq, Eq, Structural)]
pub struct Point {
    pub x: i32,
    pub y: i32,
}

/// A straight piece of an outline.
#[derive(Debug, Clone, Copy, PartialEq, Eq, Structural)]
pub struct Segment {
    pub from: Point,
    pub to: Point,
}

/// How often a curve is halved at most.
pub const MAX_SUBDIVISION_DEPTH: u32 = 10;

/// A twip in the units that curves are halved in: fine enough for every middle.
pub const UNIT: i64 = 0x10_0000;

/// How far the control point of a flat curve is from where it would be on a
/// straight line, in those units: 16 twips, as a curve leaves its chord by a
/// quarter of that at most.
pub const FLATNESS: i64 = 0x100_0000;

/// A point in fractions of twips.
pub struct Spot {
    pub x: int,
    pub y: int,
}

/// A point between twips.
#[derive(Clone, Copy)]
struct Fine {
    x: i64,
    y: i64,
}

impl Fine {
    spec fn spot(self) -> Spot {
        Spot { x: self.x as int, y: self.y as int }
    }

    spec fn near(self) -> bool {
        &&& -0x8000_0000 * UNIT <= self.x <= 0x7FFF_FFFF * UNIT
        &&& -0x8000_0000 * UNIT <= self.y <= 0x7FFF_FFFF * UNIT
    }
}

pub open spec fn spot(p: Point) -> Spot {
    Spot { x: p.x * UNIT, y: p.y * UNIT }
}

pub open spec fn middle(a: Spot, b: Spot) -> Spot {
    Spot { x: (a.x + b.x) / 2, y: (a.y + b.y) / 2 }
}

/// Whether a curve is as good as straight: its second difference is at most
/// 16 twips long.
pub open spec fn flat(a: Spot, b: Spot, c: Spot) -> bool {
    let dx = a.x - 2 * b.x + c.x;
    let dy = a.y - 2 * b.y + c.y;
    dx * dx + dy * dy <= FLATNESS * FLATNESS
}

/// The ends of the straight pieces of a curve from `a` by `b` to `c` that is halved
/// at most `left` times.
pub open spec fn curve(a: Spot, b: Spot, c: Spot, left: nat) -> Seq<Spot>
    decreases left,
{
    if left == 0 || flat(a, b, c) {
        seq![c]
    } else {
        let ab = middle(a, b);
        let bc = middle(b, c);
        let m = middle(ab, bc);
        curve(a, ab, m, (left - 1) as nat) + curve(m, bc, c, (left - 1) as nat)
    }
}

/// The nearest whole number of twips, halves away from zero.
pub open spec fn rounded(v: int) -> i32 {
    if v >= 0 {
        ((v + UNIT / 2) / (UNIT as int)) as i32
    } else {
        (-((-v + UNIT / 2) / (UNIT as int))) as i32
    }
}

pub open spec fn nearest(s: Spot) -> Point {
    Point { x: rounded(s.x), y: rounded(s.y) }
}

/// The segments through the first `n` of the points, and where they end. A point
/// where they are already adds none.
pub open spec fn through(from: Point, v: Seq<Spot>, n: nat) -> (Seq<Segment>, Point)
    decreases n,
{
    if n == 0 {
        (Seq::empty(), from)
    } else {
        let (s, at) = through(from, v, (n - 1) as nat);
        let to = nearest(v[n - 1]);
        if to == at {
            (s, at)
        } else {
            (s.push(Segment { from: at, to }), to)
        }
    }
}

/// A quadratic curve from `a` by `b` to `c` as straight segments.
pub open spec fn flattened(a: Point, b: Point, c: Point) -> Seq<Segment> {
    let v = curve(spot(a), spot(b), spot(c), MAX_SUBDIVISION_DEPTH as nat);
    let (s, at) = through(a, v, v.len());
    if at == c {
        s
    } else {
        s.push(Segment { from: at, to: c })
    }
}

fn fine(p: Point) -> (f: Fine)
    ensures
        f.spot() == spot(p),
        f.near(),
{
    Fine { x: p.x as i64 * UNIT, y: p.y as i64 * UNIT }
}

fn half(a: i64, b: i64) -> (m: i64)
    requires
        -0x8000_0000 * UNIT <= a <= 0x7FFF_FFFF * UNIT,
        -0x8000_0000 * UNIT <= b <= 0x7FFF_FFFF * UNIT,
    ensures
        m == (a + b) / 2,
        -0x8000_0000 * UNIT <= m <= 0x7FFF_FFFF * UNIT,
{
    let low: i64 = -0x8000_0000 * UNIT;
    // Both are at least `low`, so the sum is made up of parts that are not negative.
    let n: u64 = (a - low) as u64 + (b - low) as u64;
    low + (n / 2) as i64
}

fn between(a: Fine, b: Fine) -> (m: Fine)
    requires
        a.near(),
        b.near(),
    ensures
        m.spot() == middle(a.spot(), b.spot()),
        m.near(),
{
    Fine { x: half(a.x, b.x), y: half(a.y, b.y) }
}

fn is_flat(a: Fine, b: Fine, c: Fine) -> (r: bool)
    requires
        a.near(),
        b.near(),
        c.near(),
    ensures
        r == flat(a.spot(), b.spot(), c.spot()),
{
    let dx: i64 = a.x - 2 * b.x + c.x;
    let dy: i64 = a.y - 2 * b.y + c.y;
    if dx > FLATNESS || dx < -FLATNESS {
        assert(dx * dx > FLATNESS * FLATNESS && dy * dy >= 0) by (nonlinear_arith)
            requires
                dx > FLATNESS || dx < -FLATNESS,
                FLATNESS == 0x100_0000,
        ;
        return false;
    }
    if dy > FLATNESS || dy < -FLATNESS {
        assert(dy * dy > FLATNESS * FLATNESS && dx * dx >= 0) by (nonlinear_arith)
            requires
                dy > FLATNESS || dy < -FLATNESS,
                FLATNESS == 0x100_0000,
        ;
        return false;
    }
    assert(0 <= dx * dx <= FLATNESS * FLATNESS) by (nonlinear_arith)
        requires
            -FLATNESS <= dx <= FLATNESS,
    ;
    assert(0 <= dy * dy <= FLATNESS * FLATNESS) by (nonlinear_arith)
        requires
            -FLATNESS <= dy <= FLATNESS,
    ;
    dx * dx + dy * dy <= FLATNESS * FLATNESS
}

fn subdivide(a: Fine, b: Fine, c: Fine, left: u32, out: &mut Vec<Fine>)
    requires
        a.near(),
        b.near(),
        c.near(),
        forall|i: int| 0 <= i < old(out)@.len() ==> (#[trigger] old(out)@[i]).near(),
    ensures
        spots(final(out)@) == spots(old(out)@) + curve(a.spot(), b.spot(), c.spot(), left as nat),
        forall|i: int| 0 <= i < final(out)@.len() ==> (#[trigger] final(out)@[i]).near(),
    decreases left,
{
    if left == 0 || is_flat(a, b, c) {
        out.push(c);
        assert(spots(out@) =~= spots(old(out)@) + seq![c.spot()]);
        return;
    }
    let ab = between(a, b);
    let bc = between(b, c);
    let m = between(ab, bc);
    subdivide(a, ab, m, left - 1, out);
    subdivide(m, bc, c, left - 1, out);
    assert(spots(out@) =~= spots(old(out)@) + curve(a.spot(), b.spot(), c.spot(), left as nat));
}

spec fn spots(v: Seq<Fine>) -> Seq<Spot> {
    Seq::new(v.len(), |i: int| v[i].spot())
}

fn round(v: i64) -> (r: i32)
    requires
        -0x8000_0000 * UNIT <= v <= 0x7FFF_FFFF * UNIT,
    ensures
        r == rounded(v as int),
{
    if v >= 0 {
        ((v + UNIT / 2) / UNIT) as i32
    } else {
        (-((-v + UNIT / 2) / UNIT)) as i32
    }
}

/// Flatten a quadratic curve (start `a`, control `b`, end `c`) to line segments by
/// halving it until each part is as good as straight.
pub fn flatten_quadratic(a: Point, b: Point, c: Point) -> (out: Vec<Segment>)
    ensures
        out@ == flattened(a, b, c),
{
    let mut points: Vec<Fine> = Vec::new();
    assert(spots(points@) =~= Seq::empty());
    subdivide(fine(a), fine(b), fine(c), MAX_SUBDIVISION_DEPTH, &mut points);
    let ghost v = spots(points@);
    assert(v =~= curve(spot(a), spot(b), spot(c), MAX_SUBDIVISION_DEPTH as nat));
    let mut out: Vec<Segment> = Vec::new();
    let mut at = a;
    let mut i: usize = 0;
    while i < points.len()
        invariant
            v == spots(points@),
            i <= points@.len(),
            (out@, at) == through(a, v, i as nat),
            forall|i: int| 0 <= i < points@.len() ==> (#[trigger] points@[i]).near(),
        decreases points@.len() - i,
    {
        let p = points[i];
        assert(v[i as int] == p.spot());
        let to = Point { x: round(p.x), y: round(p.y) };
        if to != at {
            out.push(Segment { from: at, to });
            at = to;
        }
        i = i + 1;
    }
    if at != c {
        out.push(Segment { from: at, to: c });
    }
    out
}

/// Whether segments lead from one point to another without a gap.
pub open spec fn leads(s: Seq<Segment>, from: Point, to: Point) -> bool
    decreases s.len(),
{
    if s.len() == 0 {
        from == to
    } else {
        s.last().to == to && leads(s.drop_last(), from, s.last().from)
    }
}

proof fn lemma_through(from: Point, v: Seq<Spot>, n: nat)
    ensures
        leads(through(from, v, n).0, from, through(from, v, n).1),
    decreases n,
{
    if n > 0 {
        lemma_through(from, v, (n - 1) as nat);
        let (s, at) = through(from, v, (n - 1) as nat);
        let g = Segment { from: at, to: nearest(v[n - 1]) };
        assert(s.push(g).drop_last() =~= s);
    }
}

/// A flattened curve leads from its start to its end without a gap.
pub proof fn law_flattened(a: Point, b: Point, c: Point)
    ensures
        leads(flattened(a, b, c), a, c),
{
    let v = curve(spot(a), spot(b), spot(c), MAX_SUBDIVISION_DEPTH as nat);
    lemma_through(a, v, v.len());
    let (s, at) = through(a, v, v.len());
    assert(s.push(Segment { from: at, to: c }).drop_last() =~= s);
}

/// A segment with the styles that were in force when it was drawn.
#[derive(Debug, Clone, Copy)]
pub struct TaggedEdge {
    pub segment: Segment,
    pub fill0: Option<u32>,
    pub fill1: Option<u32>,
    pub line: Option<u32>,
    /// The table that the styles are in: 0 for that of the shape, else the record
    /// that brought it, counted from 1.
    pub table: usize,
}

/// Where drawing is, and in which styles.
#[derive(Debug, Clone, Copy)]
pub struct Pen {
    pub at: Point,
    pub fill0: Option<u32>,
    pub fill1: Option<u32>,
    pub line: Option<u32>,
    pub table: usize,
}

/// One of two values, the first where it is given.
pub open spec fn or<T>(a: Option<T>, b: Option<T>) -> Option<T> {
    if a is Some {
        a
    } else {
        b
    }
}

impl Pen {
    pub open spec fn start() -> Pen {
        Pen { at: Point { x: 0, y: 0 }, fill0: None, fill1: None, line: None, table: 0 }
    }

    /// The pen after the `i`-th record, a change of styles.
    pub open spec fn changed(self, c: StyleChange, i: int) -> Pen {
        Pen {
            at: match c.move_to {
                Some((x, y)) => Point { x, y },
                None => self.at,
            },
            fill0: if c.renewed {
                c.fill0
            } else {
                or(c.fill0, self.fill0)
            },
            fill1: if c.renewed {
                c.fill1
            } else {
                or(c.fill1, self.fill1)
            },
            line: if c.renewed {
                c.line
            } else {
                or(c.line, self.line)
            },
            table: if c.renewed {
                (i + 1) as usize
            } else {
                self.table
            },
        }
    }

    pub open spec fn tag(self, s: Segment) -> TaggedEdge {
        TaggedEdge {
            segment: s,
            fill0: self.fill0,
            fill1: self.fill1,
            line: self.line,
            table: self.table,
        }
    }

    pub open spec fn tagged(self, s: Seq<Segment>) -> Seq<TaggedEdge> {
        Seq::new(s.len(), |i: int| self.tag(s[i]))
    }

    /// Where an edge leads.
    pub open spec fn end(self, e: EdgeStep) -> Point {
        match e {
            EdgeStep::Line { dx, dy } => self.at.shifted(dx, dy),
            EdgeStep::Curve { cx, cy, ax, ay } => self.at.shifted(cx, cy).shifted(ax, ay),
        }
    }

    /// The straight segments of an edge.
    pub open spec fn drawn(self, e: EdgeStep) -> Seq<Segment> {
        match e {
            EdgeStep::Line { .. } => seq![Segment { from: self.at, to: self.end(e) }],
            EdgeStep::Curve { cx, cy, .. } => flattened(
                self.at,
                self.at.shifted(cx, cy),
                self.end(e),
            ),
        }
    }
}

impl Point {
    /// The point this far away; twips wrap around.
    pub open spec fn shifted(self, dx: i32, dy: i32) -> Point {
        Point { x: wrapped(self.x + dx), y: wrapped(self.y + dy) }
    }
}

pub open spec fn wrapped(v: int) -> i32 {
    if v > i32::MAX {
        (v - 0x1_0000_0000) as i32
    } else if v < i32::MIN {
        (v + 0x1_0000_0000) as i32
    } else {
        v as i32
    }
}

/// The entry at `i`, where there is one.
pub open spec fn entry<T>(v: Seq<Option<T>>, i: int) -> Option<T> {
    if 0 <= i < v.len() {
        v[i]
    } else {
        None
    }
}

/// The segments of the first `n` records, and the pen behind them.
pub open spec fn walked(
    changes: Seq<Option<StyleChange>>,
    edges: Seq<Option<EdgeStep>>,
    n: nat,
) -> (Seq<TaggedEdge>, Pen)
    decreases n,
{
    if n == 0 {
        (Seq::empty(), Pen::start())
    } else {
        let (v, pen) = walked(changes, edges, (n - 1) as nat);
        match changes[n - 1] {
            Some(c) => (v, pen.changed(c, n - 1)),
            None => match entry(edges, n - 1) {
                Some(e) => (v + pen.tagged(pen.drawn(e)), Pen { at: pen.end(e), ..pen }),
                None => (v, pen),
            },
        }
    }
}

/// The segments of a shape.
pub open spec fn segments(
    changes: Seq<Option<StyleChange>>,
    edges: Seq<Option<EdgeStep>>,
) -> Seq<TaggedEdge> {
    walked(changes, edges, changes.len()).0
}

fn pick(a: Option<u32>, b: Option<u32>) -> (r: Option<u32>)
    ensures
        r == or(a, b),
{
    match a {
        Some(x) => Some(x),
        None => b,
    }
}

fn shift(p: Point, dx: i32, dy: i32) -> (r: Point)
    ensures
        r == p.shifted(dx, dy),
{
    Point { x: p.x.wrapping_add(dx), y: p.y.wrapping_add(dy) }
}

/// Walk the records of a shape, flattening curves and stamping each straight
/// segment with the styles in force when it was drawn.
pub fn flatten_edges(
    changes: &Vec<Option<StyleChange>>,
    edges: &Vec<Option<EdgeStep>>,
) -> (out: Vec<TaggedEdge>)
    ensures
        out@ == segments(changes@, edges@),
{
    let mut out: Vec<TaggedEdge> = Vec::new();
    let mut pen = Pen { at: Point { x: 0, y: 0 }, fill0: None, fill1: None, line: None, table: 0 };
    let mut i: usize = 0;
    while i < changes.len()
        invariant
            i <= changes@.len(),
            (out@, pen) == walked(changes@, edges@, i as nat),
        decreases changes@.len() - i,
    {
        match changes[i] {
            Some(c) => {
                let at = match c.move_to {
                    Some((x, y)) => Point { x, y },
                    None => pen.at,
                };
                if c.renewed {
                    pen = Pen { at, fill0: c.fill0, fill1: c.fill1, line: c.line, table: i + 1 };
                } else {
                    pen = Pen {
                        at,
                        fill0: pick(c.fill0, pen.fill0),
                        fill1: pick(c.fill1, pen.fill1),
                        line: pick(c.line, pen.line),
                        table: pen.table,
                    };
                }
            },
            None => {
                let step = if i < edges.len() {
                    edges[i]
                } else {
                    None
                };
                if let Some(e) = step {
                    let (pieces, to) = match e {
                        EdgeStep::Line { dx, dy } => {
                            let to = shift(pen.at, dx, dy);
                            let mut v: Vec<Segment> = Vec::new();
                            v.push(Segment { from: pen.at, to });
                            assert(v@ =~= pen.drawn(e));
                            (v, to)
                        },
                        EdgeStep::Curve { cx, cy, ax, ay } => {
                            let by = shift(pen.at, cx, cy);
                            let to = shift(by, ax, ay);
                            (flatten_quadratic(pen.at, by, to), to)
                        },
                    };
                    push_tagged(&mut out, &pieces, pen);
                    pen = Pen {
                        at: to,
                        fill0: pen.fill0,
                        fill1: pen.fill1,
                        line: pen.line,
                        table: pen.table,
                    };
                }
            },
        }
        i = i + 1;
    }
    out
}

fn push_tagged(out: &mut Vec<TaggedEdge>, pieces: &Vec<Segment>, pen: Pen)
    ensures
        final(out)@ == old(out)@ + pen.tagged(pieces@),
{
    let ghost before = out@;
    let ghost all = pen.tagged(pieces@);
    let mut i: usize = 0;
    assert(out@ =~= before + all.take(0));
    while i < pieces.len()
        invariant
            i <= pieces@.len(),
            all == pen.tagged(pieces@),
            out@ == before + all.take(i as int),
        decreases pieces@.len() - i,
    {
        out.push(
            TaggedEdge {
                segment: pieces[i],
                fill0: pen.fill0,
                fill1: pen.fill1,
                line: pen.line,
                table: pen.table,
            },
        );
        i = i + 1;
        assert(out@ =~= before + all.take(i as int));
    }
    assert(all.take(i as int) =~= all);
}

/// The first segment from the `j`-th on that is not used and starts at a point.
pub open spec fn next(d: Seq<Segment>, used: Seq<bool>, p: Point, j: int) -> Option<int>
    decreases d.len() - j,
{
    if j >= d.len() {
        None
    } else if !used[j] && d[j].from == p {
        Some(j)
    } else {
        next(d, used, p, j + 1)
    }
}

/// How many segments are not used.
pub open spec fn unused(used: Seq<bool>) -> nat
    decreases used.len(),
{
    if used.len() == 0 {
        0
    } else {
        unused(used.drop_last()) + if used.last() {
            0nat
        } else {
            1
        }
    }
}

/// Using a segment leaves one less.
pub proof fn lemma_unused(used: Seq<bool>, i: int)
    requires
        0 <= i < used.len(),
        !used[i],
    ensures
        unused(used.update(i, true)) + 1 == unused(used),
    decreases used.len(),
{
    let after = used.update(i, true);
    if i < used.len() - 1 {
        lemma_unused(used.drop_last(), i);
        assert(after.drop_last() =~= used.drop_last().update(i, true));
    } else {
        assert(after.drop_last() =~= used.drop_last());
    }
}

/// The contour from the `at`-th segment on: the points that it passes until it is
/// back at its start or finds no segment, and what is used behind it.
pub open spec fn chain(d: Seq<Segment>, used: Seq<bool>, at: int, start: Point) -> (
    Seq<Point>,
    Seq<bool>,
)
    decreases unused(used),
{
    if !(0 <= at < d.len() && used.len() == d.len() && !used[at]) {
        (Seq::empty(), used)
    } else {
        proof {
            lemma_unused(used, at);
        }
        let u = used.update(at, true);
        if d[at].to == start {
            (seq![d[at].from], u)
        } else {
            match next(d, u, d[at].to, 0) {
                Some(j) => {
                    let (rest, v) = chain(d, u, j, start);
                    (seq![d[at].from] + rest, v)
                },
                None => (seq![d[at].from], u),
            }
        }
    }
}

/// The contours that start among the first `n` segments, and what is used by them.
/// One of less than three points encloses nothing.
pub open spec fn chains(d: Seq<Segment>, n: nat) -> (Seq<Seq<Point>>, Seq<bool>)
    decreases n,
{
    if n == 0 {
        (Seq::empty(), Seq::new(d.len(), |i: int| false))
    } else {
        let (c, used) = chains(d, (n - 1) as nat);
        if used[n - 1] {
            (c, used)
        } else {
            let (w, u) = chain(d, used, n - 1, d[n - 1].from);
            (
                if w.len() >= 3 {
                    c.push(w)
                } else {
                    c
                },
                u,
            )
        }
    }
}

/// The contours that segments make up.
pub open spec fn contours(d: Seq<Segment>) -> Seq<Seq<Point>> {
    chains(d, d.len()).0
}

/// The contours seen as sequences.
pub open spec fn loops(v: Seq<Vec<Point>>) -> Seq<Seq<Point>> {
    Seq::new(v.len(), |i: int| v[i]@)
}

fn find_next(d: &[Segment], used: &Vec<bool>, p: Point) -> (r: Option<usize>)
    requires
        used@.len() == d@.len(),
    ensures
        match r {
            Some(j) => next(d@, used@, p, 0) == Some(j as int) && j < d@.len() && !used@[j as int],
            None => next(d@, used@, p, 0) is None,
        },
{
    let mut j: usize = 0;
    while j < d.len()
        invariant
            j <= d@.len(),
            used@.len() == d@.len(),
            next(d@, used@, p, 0) == next(d@, used@, p, j as int),
        decreases d@.len() - j,
    {
        if !used[j] && d[j].from == p {
            return Some(j);
        }
        j = j + 1;
    }
    None
}

fn follow(d: &[Segment], used: &mut Vec<bool>, first: usize) -> (out: Vec<Point>)
    requires
        old(used)@.len() == d@.len(),
        first < d@.len(),
        !old(used)@[first as int],
    ensures
        (out@, final(used)@) == chain(d@, old(used)@, first as int, d@[first as int].from),
        final(used)@.len() == d@.len(),
{
    let start = d[first].from;
    let ghost whole = chain(d@, used@, first as int, start);
    let mut out: Vec<Point> = Vec::new();
    let mut at: usize = first;
    assert(out@ + whole.0 =~= whole.0);
    loop
        invariant_except_break
            used@.len() == d@.len(),
            at < d@.len(),
            !used@[at as int],
            whole == (
                out@ + chain(d@, used@, at as int, start).0,
                chain(d@, used@, at as int, start).1,
            ),
        ensures
            (out@, used@) == whole,
            used@.len() == d@.len(),
        decreases unused(used@),
    {
        let ghost before = out@;
        let ghost was = used@;
        proof {
            lemma_unused(used@, at as int);
        }
        used.set(at, true);
        let s = d[at];
        out.push(s.from);
        assert(out@ =~= before + seq![s.from]);
        if s.to == start {
            break;
        }
        match find_next(d, used, s.to) {
            Some(j) => {
                proof {
                    let (rest, v) = chain(d@, used@, j as int, start);
                    assert(chain(d@, was, at as int, start).0 == seq![s.from] + rest);
                    assert(before + (seq![s.from] + rest) =~= out@ + rest);
                }
                at = j;
            },
            None => {
                break;
            },
        }
    }
    out
}

/// Chain directed segments sharing endpoints into closed polygon loops. Multiple
/// independent loops (an outer boundary plus holes, or disjoint parts sharing one
/// fill style) are all returned; in a well-formed shape every segment's end is
/// matched by another one's start, so a chain closes back to its start. The partial
/// loop of an open chain is kept.
pub fn build_contours(directed: &[Segment]) -> (out: Vec<Vec<Point>>)
    ensures
        loops(out@) == contours(directed@),
{
    let ghost d = directed@;
    let mut used: Vec<bool> = Vec::new();
    let mut i: usize = 0;
    while i < directed.len()
        invariant
            i <= directed@.len(),
            used@.len() == i,
            forall|k: int| 0 <= k < i ==> !(#[trigger] used@[k]),
        decreases directed@.len() - i,
    {
        used.push(false);
        i = i + 1;
    }
    let mut out: Vec<Vec<Point>> = Vec::new();
    assert(used@ =~= Seq::new(d.len(), |i: int| false));
    assert(loops(out@) =~= Seq::empty());
    let mut n: usize = 0;
    while n < directed.len()
        invariant
            d == directed@,
            n <= d.len(),
            used@.len() == d.len(),
            (loops(out@), used@) == chains(d, n as nat),
        decreases d.len() - n,
    {
        if !used[n] {
            let w = follow(directed, &mut used, n);
            if w.len() >= 3 {
                let ghost seen = out@;
                out.push(w);
                assert(loops(out@) =~= loops(seen).push(w@));
            }
        }
        n = n + 1;
    }
    out
}

/// Whether a segment leads from one point to another.
pub open spec fn joined(d: Seq<Segment>, a: Point, b: Point) -> bool {
    exists|i: int| 0 <= i < d.len() && #[trigger] d[i] == (Segment { from: a, to: b })
}

proof fn lemma_next(d: Seq<Segment>, used: Seq<bool>, p: Point, j: int)
    requires
        0 <= j,
    ensures
        next(d, used, p, j) matches Some(k) ==> j <= k < d.len() && !used[k] && d[k].from == p,
    decreases d.len() - j,
{
    if j < d.len() {
        lemma_next(d, used, p, j + 1);
    }
}

proof fn lemma_chain(d: Seq<Segment>, used: Seq<bool>, at: int, start: Point)
    requires
        0 <= at < d.len(),
        used.len() == d.len(),
        !used[at],
    ensures
        ({
            let (c, u) = chain(d, used, at, start);
            &&& c.len() > 0
            &&& c[0] == d[at].from
            &&& u.len() == d.len()
            &&& u[at]
            &&& forall|i: int| 0 <= i < d.len() && used[i] ==> #[trigger] u[i]
            &&& forall|i: int| 0 <= i < c.len() - 1 ==> joined(d, #[trigger] c[i], c[i + 1])
        }),
    decreases unused(used),
{
    lemma_unused(used, at);
    let u = used.update(at, true);
    if d[at].to != start {
        lemma_next(d, u, d[at].to, 0);
        if next(d, u, d[at].to, 0) is Some {
            let j = next(d, u, d[at].to, 0)->0;
            lemma_chain(d, u, j, start);
            let (rest, v) = chain(d, u, j, start);
            let c = seq![d[at].from] + rest;
            assert(v[at]);
            assert forall|i: int| 0 <= i < c.len() - 1 implies joined(d, #[trigger] c[i], c[i + 1]) by {
                if i == 0 {
                    assert(d[at] == (Segment { from: c[0], to: c[1] }));
                } else {
                    assert(c[i] == rest[i - 1] && c[i + 1] == rest[i]);
                    assert(joined(d, rest[i - 1], rest[i - 1 + 1]));
                }
            }
        }
    }
}

/// Every segment goes into a chain, and neighbouring points of a contour are joined
/// by a segment. A contour has three points or more.
pub proof fn law_contours(d: Seq<Segment>, n: nat)
    requires
        n <= d.len(),
    ensures
        ({
            let (c, used) = chains(d, n);
            &&& used.len() == d.len()
            &&& forall|i: int| 0 <= i < n ==> #[trigger] used[i]
            &&& forall|k: int|
                0 <= k < c.len() ==> (#[trigger] c[k]).len() >= 3 && forall|i: int|
                    0 <= i < c[k].len() - 1 ==> joined(d, #[trigger] c[k][i], c[k][i + 1])
        }),
    decreases n,
{
    if n > 0 {
        law_contours(d, (n - 1) as nat);
        let (c, used) = chains(d, (n - 1) as nat);
        if !used[n - 1] {
            lemma_chain(d, used, n - 1, d[n - 1].from);
        }
    }
}

/// A style of a table; styles count from 1.
#[derive(Debug, Clone, Copy, PartialEq, Eq, Structural)]
pub struct Key {
    pub table: usize,
    pub style: u32,
}

impl Key {
    pub open spec fn before(self, other: Key) -> bool {
        self.table < other.table || (self.table == other.table && self.style < other.style)
    }

    fn precedes(self, other: Key) -> (b: bool)
        ensures
            b == self.before(other),
    {
        self.table < other.table || (self.table == other.table && self.style < other.style)
    }
}

/// The style that an entry selects; 0 is none.
pub open spec fn selects(table: usize, style: Option<u32>, k: Key) -> bool {
    k.style > 0 && table == k.table && style == Some(k.style)
}

/// Whether an edge borders on a fill.
pub open spec fn on_fill(e: TaggedEdge, k: Key) -> bool {
    selects(e.table, e.fill1, k) || selects(e.table, e.fill0, k)
}

/// Whether an edge is drawn as a line.
pub open spec fn on_line(e: TaggedEdge, k: Key) -> bool {
    selects(e.table, e.line, k)
}

/// The outline of a fill among the first `n` edges: those to whose right it is, and
/// those to whose left it is reversed.
pub open spec fn border(v: Seq<TaggedEdge>, k: Key, n: nat) -> Seq<Segment>
    decreases n,
{
    if n == 0 {
        Seq::empty()
    } else {
        let e = v[n - 1];
        let a = border(v, k, (n - 1) as nat);
        let b = if selects(e.table, e.fill1, k) {
            a.push(e.segment)
        } else {
            a
        };
        if selects(e.table, e.fill0, k) {
            b.push(Segment { from: e.segment.to, to: e.segment.from })
        } else {
            b
        }
    }
}

/// The segments of a line among the first `n` edges.
pub open spec fn strokes(v: Seq<TaggedEdge>, k: Key, n: nat) -> Seq<Segment>
    decreases n,
{
    if n == 0 {
        Seq::empty()
    } else {
        let a = strokes(v, k, (n - 1) as nat);
        if on_line(v[n - 1], k) {
            a.push(v[n - 1].segment)
        } else {
            a
        }
    }
}

pub open spec fn sorted(v: Seq<Key>) -> bool {
    forall|i: int, j: int| 0 <= i < j < v.len() ==> (#[trigger] v[i]).before(#[trigger] v[j])
}

/// Whether these are the fills that the first `n` edges border on, in order.
pub open spec fn fill_keys(keys: Seq<Key>, v: Seq<TaggedEdge>, n: int) -> bool {
    &&& sorted(keys)
    &&& forall|k: Key|
        #[trigger] keys.contains(k) <==> exists|i: int| 0 <= i < n && on_fill(#[trigger] v[i], k)
}

/// Whether these are the lines of the first `n` edges, in order.
pub open spec fn line_keys(keys: Seq<Key>, v: Seq<TaggedEdge>, n: int) -> bool {
    &&& sorted(keys)
    &&& forall|k: Key|
        #[trigger] keys.contains(k) <==> exists|i: int| 0 <= i < n && on_line(#[trigger] v[i], k)
}

/// Adds a key to sorted ones.
fn add_key(keys: &mut Vec<Key>, k: Key)
    requires
        sorted(old(keys)@),
    ensures
        sorted(final(keys)@),
        forall|x: Key| #[trigger] final(keys)@.contains(x) <==> x == k || old(keys)@.contains(x),
{
    let ghost was = keys@;
    let mut i: usize = 0;
    while i < keys.len() && keys[i].precedes(k)
        invariant
            keys@ == was,
            i <= was.len(),
            forall|j: int| 0 <= j < i ==> (#[trigger] was[j]).before(k),
        decreases was.len() - i,
    {
        i = i + 1;
    }
    if i < keys.len() && keys[i] == k {
        assert(was.contains(k));
        return;
    }
    keys.insert(i, k);
    proof {
        let now = keys@;
        assert forall|a: int, b: int| 0 <= a < b < now.len() implies (#[trigger] now[a]).before(
            #[trigger] now[b],
        ) by {
            if b < i {
                assert(was[a].before(was[b]));
            } else if b == i {
                assert(was[a].before(k));
            } else {
                assert(now[b] == was[b - 1]);
                if i < b - 1 {
                    assert(was[i as int].before(was[b - 1]));
                }
                assert(k.before(was[b - 1]));
                if a < i {
                    assert(was[a].before(was[b - 1]));
                } else if a > i {
                    assert(was[a - 1].before(was[b - 1]));
                }
            }
        }
        assert forall|x: Key| #[trigger] now.contains(x) <==> x == k || was.contains(x) by {
            if now.contains(x) {
                let j = choose|j: int| 0 <= j < now.len() && now[j] == x;
                if j < i {
                    assert(was[j] == x);
                } else if j > i {
                    assert(was[j - 1] == x);
                }
            }
            if was.contains(x) {
                let j = choose|j: int| 0 <= j < was.len() && was[j] == x;
                if j < i {
                    assert(now[j] == x);
                } else {
                    assert(now[j + 1] == x);
                }
            }
            assert(now[i as int] == k);
        }
    }
}

fn collect_fill_keys(v: &Vec<TaggedEdge>) -> (keys: Vec<Key>)
    ensures
        fill_keys(keys@, v@, v@.len() as int),
{
    let mut keys: Vec<Key> = Vec::new();
    let mut i: usize = 0;
    while i < v.len()
        invariant
            i <= v@.len(),
            fill_keys(keys@, v@, i as int),
        decreases v@.len() - i,
    {
        let e = v[i];
        let ghost was = keys@;
        if let Some(style) = e.fill1 {
            if style > 0 {
                add_key(&mut keys, Key { table: e.table, style });
            }
        }
        if let Some(style) = e.fill0 {
            if style > 0 {
                add_key(&mut keys, Key { table: e.table, style });
            }
        }
        proof {
            assert forall|k: Key| #[trigger] keys@.contains(k) <==> exists|j: int|
                0 <= j < i + 1 && on_fill(#[trigger] v@[j], k) by {
                assert(keys@.contains(k) <==> was.contains(k) || on_fill(e, k));
                if was.contains(k) {
                    let j = choose|j: int| 0 <= j < i && on_fill(#[trigger] v@[j], k);
                    assert(on_fill(v@[j], k));
                }
                if on_fill(e, k) {
                    assert(on_fill(v@[i as int], k));
                }
            }
        }
        i = i + 1;
    }
    keys
}

fn collect_line_keys(v: &Vec<TaggedEdge>) -> (keys: Vec<Key>)
    ensures
        line_keys(keys@, v@, v@.len() as int),
{
    let mut keys: Vec<Key> = Vec::new();
    let mut i: usize = 0;
    while i < v.len()
        invariant
            i <= v@.len(),
            line_keys(keys@, v@, i as int),
        decreases v@.len() - i,
    {
        let e = v[i];
        let ghost was = keys@;
        if let Some(style) = e.line {
            if style > 0 {
                add_key(&mut keys, Key { table: e.table, style });
            }
        }
        proof {
            assert forall|k: Key| #[trigger] keys@.contains(k) <==> exists|j: int|
                0 <= j < i + 1 && on_line(#[trigger] v@[j], k) by {
                assert(keys@.contains(k) <==> was.contains(k) || on_line(e, k));
                if was.contains(k) {
                    let j = choose|j: int| 0 <= j < i && on_line(#[trigger] v@[j], k);
                    assert(on_line(v@[j], k));
                }
                if on_line(e, k) {
                    assert(on_line(v@[i as int], k));
                }
            }
        }
        i = i + 1;
    }
    keys
}

fn is_selected(table: usize, style: Option<u32>, k: Key) -> (b: bool)
    ensures
        b == selects(table, style, k),
{
    match style {
        Some(s) => s > 0 && table == k.table && s == k.style,
        None => false,
    }
}

fn collect_border(v: &Vec<TaggedEdge>, k: Key) -> (out: Vec<Segment>)
    ensures
        out@ == border(v@, k, v@.len()),
{
    let mut out: Vec<Segment> = Vec::new();
    let mut i: usize = 0;
    while i < v.len()
        invariant
            i <= v@.len(),
            out@ == border(v@, k, i as nat),
        decreases v@.len() - i,
    {
        let e = v[i];
        if is_selected(e.table, e.fill1, k) {
            out.push(e.segment);
        }
        if is_selected(e.table, e.fill0, k) {
            // To the left of travel is to the right of travel backwards.
            out.push(Segment { from: e.segment.to, to: e.segment.from });
        }
        i = i + 1;
    }
    out
}

fn collect_strokes(v: &Vec<TaggedEdge>, k: Key) -> (out: Vec<Segment>)
    ensures
        out@ == strokes(v@, k, v@.len()),
{
    let mut out: Vec<Segment> = Vec::new();
    let mut i: usize = 0;
    while i < v.len()
        invariant
            i <= v@.len(),
            out@ == strokes(v@, k, i as nat),
        decreases v@.len() - i,
    {
        if is_selected(v[i].table, v[i].line, k) {
            out.push(v[i].segment);
        }
        i = i + 1;
    }
    out
}

/// The area of a fill.
pub struct FillArea {
    pub key: Key,
    pub contours: Vec<Vec<Point>>,
}

/// What is drawn in a line style.
pub struct LineRun {
    pub key: Key,
    pub segments: Vec<Segment>,
}

pub open spec fn area_keys(v: Seq<FillArea>) -> Seq<Key> {
    Seq::new(v.len(), |i: int| v[i].key)
}

pub open spec fn run_keys(v: Seq<LineRun>) -> Seq<Key> {
    Seq::new(v.len(), |i: int| v[i].key)
}

/// The areas and lines of a shape, by style.
pub struct Outline {
    pub fills: Vec<FillArea>,
    pub lines: Vec<LineRun>,
}

impl Outline {
    /// Whether this is the outline that edges make up.
    pub open spec fn encloses(self, v: Seq<TaggedEdge>) -> bool {
        &&& fill_keys(area_keys(self.fills@), v, v.len() as int)
        &&& forall|i: int|
            0 <= i < self.fills@.len() ==> loops((#[trigger] self.fills@[i]).contours@) == contours(
                border(v, self.fills@[i].key, v.len()),
            )
        &&& line_keys(run_keys(self.lines@), v, v.len() as int)
        &&& forall|i: int|
            0 <= i < self.lines@.len() ==> (#[trigger] self.lines@[i]).segments@ == strokes(
                v,
                self.lines@[i].key,
                v.len(),
            )
    }
}

/// The areas and lines that edges make up, by style.
pub fn outline(v: &Vec<TaggedEdge>) -> (o: Outline)
    ensures
        o.encloses(v@),
{
    let fill_list = collect_fill_keys(v);
    let line_list = collect_line_keys(v);
    let mut fills: Vec<FillArea> = Vec::new();
    let mut i: usize = 0;
    while i < fill_list.len()
        invariant
            i <= fill_list@.len(),
            fills@.len() == i,
            forall|k: int|
                0 <= k < i ==> (#[trigger] fills@[k]).key == fill_list@[k] && loops(
                    fills@[k].contours@,
                ) == contours(border(v@, fills@[k].key, v@.len())),
        decreases fill_list@.len() - i,
    {
        let directed = collect_border(v, fill_list[i]);
        fills.push(FillArea { key: fill_list[i], contours: build_contours(directed.as_slice()) });
        i = i + 1;
    }
    let mut lines: Vec<LineRun> = Vec::new();
    let mut i: usize = 0;
    while i < line_list.len()
        invariant
            i <= line_list@.len(),
            lines@.len() == i,
            forall|k: int|
                0 <= k < i ==> (#[trigger] lines@[k]).key == line_list@[k] && lines@[k].segments@
                    == strokes(v@, lines@[k].key, v@.len()),
        decreases line_list@.len() - i,
    {
        lines.push(LineRun { key: line_list[i], segments: collect_strokes(v, line_list[i]) });
        i = i + 1;
    }
    assert(area_keys(fills@) =~= fill_list@);
    assert(run_keys(lines@) =~= line_list@);
    Outline { fills, lines }
}

/// The tables of styles of a shape.
pub struct StyleTables {
    /// Colors of fills, those of gradients by their first stops.
    pub fill_colors: Vec<Vec<Option<u32>>>,
    pub fill_images: Vec<Vec<Option<ImagePaint>>>,
    /// Where the images go: the numbers a, b, c and d in 1/65536, and the offset in
    /// twips.
    pub fill_matrices: Vec<Vec<Option<[i32; 6]>>>,
    pub line_colors: Vec<Vec<Option<u32>>>,
    /// In twips.
    pub line_widths: Vec<Vec<i32>>,
}

/// The color that stands for the stops of a gradient: that of the first one.
pub open spec fn first_stop(v: Seq<u32>) -> Option<u32> {
    if v.len() > 0 {
        Some(v[0])
    } else {
        None
    }
}

/// The colors that stand for the fills of tables.
pub open spec fn first_stops(v: Seq<Seq<Seq<u32>>>) -> Seq<Seq<Option<u32>>> {
    Seq::new(v.len(), |i: int| Seq::new(v[i].len(), |j: int| first_stop(v[i][j])))
}

fn row_stops(v: &Vec<Vec<u32>>) -> (out: Vec<Option<u32>>)
    ensures
        out@ == Seq::new(v@.len(), |j: int| first_stop(v@[j]@)),
{
    let mut out: Vec<Option<u32>> = Vec::new();
    let mut j: usize = 0;
    while j < v.len()
        invariant
            j <= v@.len(),
            out@.len() == j,
            forall|k: int| 0 <= k < j ==> #[trigger] out@[k] == first_stop(v@[k]@),
        decreases v@.len() - j,
    {
        out.push(
            if v[j].len() > 0 {
                Some(v[j][0])
            } else {
                None
            },
        );
        j = j + 1;
    }
    assert(out@ =~= Seq::new(v@.len(), |j: int| first_stop(v@[j]@)));
    out
}

/// The colors that stand for the fills of tables. Gradients have no counterpart in
/// geometry; their first stops stand for them.
fn table_stops(v: &Vec<Vec<Vec<u32>>>) -> (out: Vec<Vec<Option<u32>>>)
    ensures
        tables(out@) == first_stops(lists(v@)),
{
    let mut out: Vec<Vec<Option<u32>>> = Vec::new();
    let mut i: usize = 0;
    while i < v.len()
        invariant
            i <= v@.len(),
            out@.len() == i,
            forall|k: int|
                0 <= k < i ==> (#[trigger] out@[k])@ == first_stops(lists(v@))[k],
        decreases v@.len() - i,
    {
        let row = row_stops(&v[i]);
        assert(row@ =~= first_stops(lists(v@))[i as int]);
        out.push(row);
        i = i + 1;
    }
    assert(tables(out@) =~= first_stops(lists(v@)));
    out
}

/// The style that a key stands for, where the table has it.
pub open spec fn styled<T>(v: Seq<Seq<T>>, k: Key) -> Option<T> {
    if k.table < v.len() && 0 < k.style && k.style - 1 < v[k.table as int].len() {
        Some(v[k.table as int][k.style - 1])
    } else {
        None
    }
}

/// The entry that a key stands for.
pub open spec fn styled_as<T>(v: Seq<Seq<Option<T>>>, k: Key) -> Option<T> {
    match styled(v, k) {
        Some(x) => x,
        None => None,
    }
}

fn style_entry<T: Copy>(v: &Vec<Vec<T>>, k: Key) -> (r: Option<T>)
    ensures
        r == styled(tables(v@), k),
{
    if k.table < v.len() && k.style > 0 && ((k.style - 1) as usize) < v[k.table].len() {
        Some(v[k.table][(k.style - 1) as usize])
    } else {
        None
    }
}

/// What triangulating an area gave: triangles in pixels, and the matrix from there
/// to the pixels of its image, where it has one that can be inverted.
pub struct Filled {
    pub vertices: Vec<(F32Bits, F32Bits)>,
    pub matrix: Option<[F32Bits; 6]>,
}

pub const WHITE: u32 = 0xFFFF_FFFF;

pub const BLACK: u32 = 0xFF00_0000;

/// The bit pattern of one.
pub const ONE: F32Bits = 0x3F80_0000;

/// How an area is painted.
pub open spec fn fill_look(
    color: Option<u32>,
    image: Option<ImagePaint>,
    matrix: Option<[F32Bits; 6]>,
) -> Look {
    match (image, matrix) {
        (Some(i), Some(m)) => Look::Textured {
            color: WHITE,
            bitmap_character_id: i.id as u32,
            matrix: m@,
            clipped: !i.repeating,
        },
        _ => Look::Solid { color: color.unwrap_or(WHITE) },
    }
}

/// How an area is painted: with its image where it has one, else in its color.
pub fn style_for_fill(
    color: Option<u32>,
    image: Option<ImagePaint>,
    matrix: Option<[F32Bits; 6]>,
) -> (s: Style)
    ensures
        s@ == fill_look(color, image, matrix),
{
    match (image, matrix) {
        (Some(i), Some(m)) => Style::Textured {
            color: WHITE,
            bitmap_character_id: i.id as u32,
            matrix: m,
            clipped: !i.repeating,
        },
        _ => match color {
            Some(c) => Style::Solid { color: c },
            None => Style::Solid { color: WHITE },
        },
    }
}

/// How a line is drawn: `None` where there is no such style.
pub open spec fn line_look(width: Option<i32>, color: Option<u32>) -> Look {
    match width {
        Some(w) => Look::Line {
            color: color.unwrap_or(WHITE),
            width: recovering::pixels(w),
        },
        None => Look::Line { color: BLACK, width: ONE },
    }
}

pub fn style_for_line(width: Option<i32>, color: Option<u32>) -> (s: Style)
    ensures
        s@ == line_look(width, color),
{
    match width {
        Some(w) => {
            let color: u32 = match color {
                Some(c) => c,
                None => WHITE,
            };
            Style::Line { color, width: pixels(w) }
        },
        None => Style::Line { color: BLACK, width: ONE },
    }
}

pub open spec fn in_pixels(p: Point) -> (F32Bits, F32Bits) {
    (recovering::pixels(p.x), recovering::pixels(p.y))
}

/// The ends of the segments, in pixels.
pub open spec fn ends(v: Seq<Segment>) -> Seq<(F32Bits, F32Bits)> {
    Seq::new(
        2 * v.len(),
        |i: int|
            if i % 2 == 0 {
                in_pixels(v[i / 2].from)
            } else {
                in_pixels(v[i / 2].to)
            },
    )
}

fn line_vertices(v: &Vec<Segment>) -> (out: Vec<(F32Bits, F32Bits)>)
    ensures
        out@ == ends(v@),
{
    let mut out: Vec<(F32Bits, F32Bits)> = Vec::new();
    let mut i: usize = 0;
    while i < v.len()
        invariant
            i <= v@.len(),
            out@ == ends(v@).take(2 * i),
        decreases v@.len() - i,
    {
        out.push((pixels(v[i].from.x), pixels(v[i].from.y)));
        out.push((pixels(v[i].to.x), pixels(v[i].to.y)));
        i = i + 1;
        assert(out@ =~= ends(v@).take(2 * i));
    }
    assert(ends(v@).take(2 * i) =~= ends(v@));
    out
}

/// A shape: its head, what it encloses, and its styles.
pub struct ShapeOutline {
    pub head: ShapeHead,
    pub outline: Outline,
    pub styles: StyleTables,
}

impl ShapeOutline {
    /// What triangulating the `i`-th area gave.
    pub open spec fn filling(filled: Seq<Filled>, i: int) -> Option<Filled> {
        if i < filled.len() && filled[i].vertices@.len() > 0 {
            Some(filled[i])
        } else {
            None
        }
    }

    /// The batches of the first `n` areas. One without a contour or without
    /// triangles has none.
    pub open spec fn fill_batches(self, filled: Seq<Filled>, n: nat) -> Seq<Batch>
        decreases n,
    {
        if n == 0 {
            Seq::empty()
        } else {
            let v = self.fill_batches(filled, (n - 1) as nat);
            let area = self.outline.fills@[n - 1];
            match Self::filling(filled, n - 1) {
                Some(f) => if area.contours@.len() > 0 {
                    v.push(
                        Batch {
                            style: fill_look(
                                styled_as(tables(self.styles.fill_colors@), area.key),
                                styled_as(tables(self.styles.fill_images@), area.key),
                                f.matrix,
                            ),
                            vertices: f.vertices@,
                        },
                    )
                } else {
                    v
                },
                None => v,
            }
        }
    }

    /// The batches of the lines.
    pub open spec fn line_batches(self) -> Seq<Batch> {
        Seq::new(
            self.outline.lines@.len(),
            |i: int|
                Batch {
                    style: line_look(
                        styled(tables(self.styles.line_widths@), self.outline.lines@[i].key),
                        styled_as(tables(self.styles.line_colors@), self.outline.lines@[i].key),
                    ),
                    vertices: ends(self.outline.lines@[i].segments@),
                },
        )
    }

    /// The geometry of the shape, from what triangulating its areas gave: triangles
    /// per fill style, and segments per line style.
    pub fn assemble(&self, filled: &Vec<Filled>) -> (g: ShapeGeometry)
        ensures
            batches(g.units@) == self.fill_batches(filled@, self.outline.fills@.len())
                + self.line_batches(),
    {
        let mut units: Vec<RenderUnit> = Vec::new();
        let mut i: usize = 0;
        assert(batches(units@) =~= Seq::empty());
        while i < self.outline.fills.len()
            invariant
                i <= self.outline.fills@.len(),
                batches(units@) == self.fill_batches(filled@, i as nat),
            decreases self.outline.fills@.len() - i,
        {
            let area = &self.outline.fills[i];
            if area.contours.len() > 0 && i < filled.len() && filled[i].vertices.len() > 0 {
                let color = match style_entry(&self.styles.fill_colors, area.key) {
                    Some(c) => c,
                    None => None,
                };
                let image = match style_entry(&self.styles.fill_images, area.key) {
                    Some(c) => c,
                    None => None,
                };
                let unit = RenderUnit {
                    style: style_for_fill(color, image, filled[i].matrix),
                    vertices: copy_vertices(&filled[i].vertices),
                };
                let ghost seen = units@;
                units.push(unit);
                assert(batches(units@) =~= batches(seen).push(unit@));
            }
            i = i + 1;
        }
        let ghost fills = batches(units@);
        let ghost lines = self.line_batches();
        let mut i: usize = 0;
        assert(batches(units@) =~= fills + lines.take(0));
        while i < self.outline.lines.len()
            invariant
                i <= self.outline.lines@.len(),
                lines == self.line_batches(),
                batches(units@) == fills + lines.take(i as int),
            decreases self.outline.lines@.len() - i,
        {
            let run = &self.outline.lines[i];
            let width = style_entry(&self.styles.line_widths, run.key);
            let color = match style_entry(&self.styles.line_colors, run.key) {
                Some(c) => c,
                None => None,
            };
            let unit = RenderUnit {
                style: style_for_line(width, color),
                vertices: line_vertices(&run.segments),
            };
            let ghost seen = units@;
            units.push(unit);
            assert(batches(units@) =~= batches(seen).push(unit@));
            i = i + 1;
            assert(batches(units@) =~= fills + lines.take(i as int));
        }
        assert(lines.take(i as int) =~= lines);
        ShapeGeometry { units }
    }

    /// Whether this is the shape of a tag.
    pub open spec fn read_from(self, tag: Seq<u8>, version: u8) -> bool {
        &&& swf_read::shape_head_in(tag, version) == Some(self.head)
        &&& swf_read::style_changes_in(tag, version) matches Some(changes)
        &&& swf_read::edges_in(tag, version) matches Some(edges)
        &&& self.outline.encloses(segments(changes, edges))
        &&& swf_read::fill_colors_in(tag, version) matches Some(fills)
        &&& tables(self.styles.fill_colors@) == first_stops(fills)
        &&& swf_read::fill_images_in(tag, version) == Some(tables(self.styles.fill_images@))
        &&& swf_read::fill_matrices_in(tag, version) == Some(tables(self.styles.fill_matrices@))
        &&& swf_read::line_colors_in(tag, version) matches Some(lines)
        &&& tables(self.styles.line_colors@) == first_stops(lines)
        &&& swf_read::line_widths_in(tag, version) == Some(tables(self.styles.line_widths@))
    }
}

fn copy_vertices(v: &Vec<(F32Bits, F32Bits)>) -> (out: Vec<(F32Bits, F32Bits)>)
    ensures
        out@ == v@,
{
    let mut out: Vec<(F32Bits, F32Bits)> = Vec::new();
    let mut i: usize = 0;
    while i < v.len()
        invariant
            i <= v@.len(),
            out@ == v@.take(i as int),
        decreases v@.len() - i,
    {
        out.push(v[i]);
        i = i + 1;
        assert(out@ =~= v@.take(i as int));
    }
    assert(out@ =~= v@);
    out
}

/// Whether a tag is a shape with all its parts.
pub open spec fn is_whole(tag: Seq<u8>, version: u8) -> bool {
    &&& swf_read::shape_head_in(tag, version) is Some
    &&& swf_read::style_changes_in(tag, version) is Some
    &&& swf_read::edges_in(tag, version) is Some
    &&& swf_read::fill_colors_in(tag, version) is Some
    &&& swf_read::fill_images_in(tag, version) is Some
    &&& swf_read::fill_matrices_in(tag, version) is Some
    &&& swf_read::line_colors_in(tag, version) is Some
    &&& swf_read::line_widths_in(tag, version) is Some
}

/// Extract the areas and lines of a shape from the bytes of its tag; `None` where
/// it is not a shape.
pub fn extract_shape_geometry(tag: &[u8], version: u8) -> (r: Option<ShapeOutline>)
    ensures
        match r {
            Some(s) => s.read_from(tag@, version),
            None => !is_whole(tag@, version),
        },
{
    let head = swf_read::shape_head(tag, version)?;
    let changes = swf_read::style_changes(tag, version)?;
    let edges = swf_read::edges(tag, version)?;
    let styles = StyleTables {
        fill_colors: table_stops(&swf_read::fill_colors(tag, version)?),
        fill_images: swf_read::fill_images(tag, version)?,
        fill_matrices: swf_read::fill_matrices(tag, version)?,
        line_colors: table_stops(&swf_read::line_colors(tag, version)?),
        line_widths: swf_read::line_widths(tag, version)?,
    };
    let flat_edges = flatten_edges(&changes, &edges);
    Some(ShapeOutline { head, outline: outline(&flat_edges), styles })
}

} // verus!
