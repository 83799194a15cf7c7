//! What the contours of an area hold of its border.
use super::geometry::{chain, chains, lemma_unused, next, unused, Point, Segment};
use vstd::prelude::*;

verus! {

/// Whether a segment that is not used starts at a point.
pub open spec fn goes_on(d: Seq<Segment>, used: Seq<bool>, p: Point) -> bool {
    exists|i: int| 0 <= i < d.len() && !used[i] && (#[trigger] d[i]).from == p
}

/// Whether a chain that uses the `e`-th segment last ends there: back at its start, or
/// where no segment goes on.
pub open spec fn ends_at(
    d: Seq<Segment>,
    used: Seq<bool>,
    c: Seq<Point>,
    start: Point,
    e: int,
) -> bool {
    &&& 0 <= e < d.len()
    &&& used[e]
    &&& d[e].from == c.last()
    &&& d[e].to == start || !goes_on(d, used, d[e].to)
}

proof fn lemma_next(d: Seq<Segment>, used: Seq<bool>, p: Point, j: int)
    requires
        0 <= j,
        forall|i: int| 0 <= i < j && i < d.len() ==> !(!used[i] && (#[trigger] d[i]).from == p),
    ensures
        match next(d, used, p, j) {
            Some(k) => 0 <= k < d.len() && !used[k] && d[k].from == p,
            None => !goes_on(d, used, p),
        },
    decreases d.len() - j,
{
    if j < d.len() && !(!used[j] && d[j].from == p) {
        lemma_next(d, used, p, j + 1);
    }
}

/// A chain starts where its first segment does and has a point for each segment that it
/// uses, which is where the segment starts. It ends only where it is back at its start
/// or no segment goes on.
pub proof fn law_chain(d: Seq<Segment>, used: Seq<bool>, at: int, start: Point)
    requires
        0 <= at < d.len(),
        used.len() == d.len(),
        !used[at],
    ensures
        ({
            let (c, u) = chain(d, used, at, start);
            &&& c.len() > 0
            &&& c[0] == d[at].from
            &&& u.len() == d.len()
            &&& u[at]
            &&& c.len() == unused(used) - unused(u)
            &&& forall|i: int| 0 <= i < d.len() && used[i] ==> #[trigger] u[i]
            &&& forall|i: int|
                0 <= i < d.len() && #[trigger] u[i] && !used[i] ==> c.contains(d[i].from)
            &&& exists|e: int| #[trigger] ends_at(d, u, c, start, e)
        }),
    decreases unused(used),
{
    lemma_unused(used, at);
    let w = used.update(at, true);
    let (c, u) = chain(d, used, at, start);
    if d[at].to == start {
        assert(c[0] == d[at].from);
        assert(ends_at(d, u, c, start, at));
    } else {
        lemma_next(d, w, d[at].to, 0);
        match next(d, w, d[at].to, 0) {
            None => {
                assert(c[0] == d[at].from);
                assert(ends_at(d, u, c, start, at));
            },
            Some(j) => {
                law_chain(d, w, j, start);
                let (rest, v) = chain(d, w, j, start);
                assert(c == seq![d[at].from] + rest);
                assert(v[at]);
                assert forall|i: int|
                    0 <= i < d.len() && #[trigger] u[i] && !used[i] implies c.contains(
                    d[i].from,
                ) by {
                    if i == at {
                        assert(c[0] == d[i].from);
                    } else {
                        assert(rest.contains(d[i].from));
                        let k = choose|k: int| 0 <= k < rest.len() && rest[k] == d[i].from;
                        assert(c[k + 1] == d[i].from);
                    }
                }
                let e = choose|e: int| #[trigger] ends_at(d, v, rest, start, e);
                assert(c.last() == rest.last());
                assert(ends_at(d, u, c, start, e));
            },
        }
    }
}

/// Whether a chain of less than three points, which encloses nothing, passes a point.
pub open spec fn in_scrap(d: Seq<Segment>, p: Point) -> bool {
    exists|used: Seq<bool>, at: int| #[trigger] is_scrap(d, used, at, p)
}

pub open spec fn is_scrap(d: Seq<Segment>, used: Seq<bool>, at: int, p: Point) -> bool {
    let c = chain(d, used, at, d[at].from).0;
    0 <= at < d.len() && c.len() < 3 && c.contains(p)
}

/// Whether a contour passes a point.
pub open spec fn in_contour(c: Seq<Seq<Point>>, p: Point) -> bool {
    exists|k: int| 0 <= k < c.len() && (#[trigger] c[k]).contains(p)
}

/// Every segment of a border is in a contour, or in a chain that encloses nothing.
pub proof fn law_every_segment(d: Seq<Segment>, n: nat)
    requires
        n <= d.len(),
    ensures
        ({
            let (c, used) = chains(d, n);
            &&& used.len() == d.len()
            &&& forall|i: int| 0 <= i < n ==> #[trigger] used[i]
            &&& forall|i: int|
                0 <= i < d.len() && #[trigger] used[i] ==> in_contour(c, d[i].from) || in_scrap(
                    d,
                    d[i].from,
                )
        }),
    decreases n,
{
    if n > 0 {
        law_every_segment(d, (n - 1) as nat);
        let (c, used) = chains(d, (n - 1) as nat);
        if !used[n - 1] {
            let start = d[n - 1].from;
            law_chain(d, used, n - 1, start);
            let (w, u) = chain(d, used, n - 1, start);
            let (r, _) = chains(d, n);
            assert forall|i: int| 0 <= i < d.len() && #[trigger] u[i] implies in_contour(
                r,
                d[i].from,
            ) || in_scrap(d, d[i].from) by {
                if used[i] {
                    if in_contour(c, d[i].from) {
                        let k = choose|k: int|
                            0 <= k < c.len() && (#[trigger] c[k]).contains(d[i].from);
                        assert(r[k] == c[k]);
                    }
                } else if w.len() >= 3 {
                    assert(r[r.len() - 1] == w);
                } else {
                    assert(is_scrap(d, used, n - 1, d[i].from));
                }
            }
        }
    }
}

} // verus!
