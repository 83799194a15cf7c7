//! Where the walk over imports leads.
use super::converting::{base_name, due, is_due, onward};
use super::merging::{import_start, movie_path};
use crate::apt::model::Import;
use crate::paths::{self, folder};
use vstd::prelude::*;

verus! {

/// What each base path imports; nothing where no movie can be loaded.
pub type Library = spec_fn(Seq<char>) -> Seq<Import>;

/// The base paths to look at, and the names that were converted.
pub struct Stage {
    pub queue: Seq<Seq<char>>,
    pub seen: Seq<Seq<char>>,
}

/// A walk after at most `n` movies.
pub open spec fn walked(lib: Library, base: Seq<char>, n: nat) -> Stage
    decreases n,
{
    if n == 0 {
        Stage { queue: seq![base], seen: Seq::empty() }
    } else {
        let s = walked(lib, base, (n - 1) as nat);
        let k = due(s.queue, s.seen, 0);
        if k < s.queue.len() {
            let b = s.queue[k];
            let seen = s.seen.push(base_name(b));
            Stage {
                queue: s.queue.skip(k + 1) + onward(b, lib(b), seen, lib(b).len()),
                seen,
            }
        } else {
            s
        }
    }
}

/// Whether a walk has come to its end.
pub open spec fn is_over(s: Stage) -> bool {
    due(s.queue, s.seen, 0) >= s.queue.len()
}

/// The name that an import goes by.
pub open spec fn import_name(movie: Seq<char>) -> Seq<char> {
    movie.skip(import_start(movie))
}

/// A name that a movie can have next to others.
pub open spec fn is_name(n: Seq<char>) -> bool {
    &&& n.len() > 0
    &&& n != seq!['.']
    &&& n != seq!['.', '.']
    &&& forall|i: int| 0 <= i < n.len() ==> n[i] != '/' && n[i] != '\\'
}

/// Where the movie with a name stands: the first one at `base`, the others next to it.
pub open spec fn place(base: Seq<char>, name: Seq<char>) -> Seq<char> {
    if name == base_name(base) {
        base
    } else {
        folder(base) + name
    }
}

/// Whether the movie `from` imports a movie `to`.
pub open spec fn imports(lib: Library, base: Seq<char>, from: Seq<char>, to: Seq<char>) -> bool {
    exists|i: int|
        0 <= i < lib(place(base, from)).len() && import_name(
            (#[trigger] lib(place(base, from))[i]).movie,
        ) == to
}

/// The movies that these are, or that these import.
pub open spec fn widened(lib: Library, base: Seq<char>, near: spec_fn(Seq<char>) -> bool) -> spec_fn(
    Seq<char>,
) -> bool {
    |name: Seq<char>|
        near(name) || exists|from: Seq<char>| #[trigger] near(from) && imports(lib, base, from, name)
}

/// The movies that are at most `n` imports away from the movie at `base`.
pub open spec fn reach(lib: Library, base: Seq<char>, n: nat) -> spec_fn(Seq<char>) -> bool
    decreases n,
{
    if n == 0 {
        |name: Seq<char>| name == base_name(base)
    } else {
        widened(lib, base, reach(lib, base, (n - 1) as nat))
    }
}

/// Whether a movie is at most `n` imports away from the movie at `base`.
pub open spec fn reached(lib: Library, base: Seq<char>, name: Seq<char>, n: nat) -> bool {
    reach(lib, base, n)(name)
}

/// What a movie imports is one import further away.
proof fn lemma_further(lib: Library, base: Seq<char>, from: Seq<char>, name: Seq<char>, n: nat)
    requires
        reached(lib, base, from, n),
        from == name || imports(lib, base, from, name),
    ensures
        reached(lib, base, name, n + 1),
{
    let near = reach(lib, base, n);
    assert(reach(lib, base, n + 1) == widened(lib, base, near));
    assert(near(from));
}

/// What is some imports away is imported from what is one nearer.
proof fn lemma_nearer(lib: Library, base: Seq<char>, name: Seq<char>, n: nat) -> (from: Seq<char>)
    requires
        reached(lib, base, name, n),
        name != base_name(base),
    ensures
        n > 0,
        reached(lib, base, from, (n - 1) as nat),
        from == name || imports(lib, base, from, name),
{
    let near = reach(lib, base, (n - 1) as nat);
    if near(name) {
        name
    } else {
        choose|from: Seq<char>| #[trigger] near(from) && imports(lib, base, from, name)
    }
}

/// Whether every import of every movie goes by a name.
pub open spec fn all_named(lib: Library) -> bool {
    forall|b: Seq<char>, i: int|
        0 <= i < lib(b).len() ==> is_name(import_name((#[trigger] lib(b)[i]).movie))
}

proof fn lemma_import_start(s: Seq<char>)
    ensures
        0 <= import_start(s) <= s.len(),
        forall|i: int| import_start(s) <= i < s.len() ==> s[i] != '/' && s[i] != '\\',
        is_name(s) ==> import_start(s) == 0,
    decreases s.len(),
{
    if s.len() > 0 && s[s.len() - 1] != '/' && s[s.len() - 1] != '\\' {
        let t = s.take(s.len() - 1);
        lemma_import_start(t);
        lemma_no_start(s);
        assert forall|i: int| import_start(s) <= i < s.len() implies s[i] != '/' && s[i] != '\\' by {
            if i < t.len() {
                assert(s[i] == t[i]);
            }
        }
    }
}

proof fn lemma_no_start(s: Seq<char>)
    ensures
        (forall|i: int| 0 <= i < s.len() ==> s[i] != '/' && s[i] != '\\') ==> import_start(s) == 0,
    decreases s.len(),
{
    if s.len() > 0 {
        lemma_no_start(s.take(s.len() - 1));
    }
}

/// A movie that is imported stands next to the others, under its name.
proof fn lemma_sibling(base: Seq<char>, b: Seq<char>, movie: Seq<char>)
    requires
        is_name(base_name(b)),
        folder(b) == folder(base),
        is_name(import_name(movie)),
    ensures
        movie_path(b, movie) == folder(base) + import_name(movie),
        base_name(movie_path(b, movie)) == import_name(movie),
        folder(movie_path(b, movie)) == folder(base),
{
    paths::law_siblings(b, import_name(movie));
}

/// Where the next movie stands among those from the `i`-th on.
proof fn lemma_due(queue: Seq<Seq<char>>, seen: Seq<Seq<char>>, i: int)
    requires
        0 <= i <= queue.len(),
    ensures
        i <= due(queue, seen, i) <= queue.len(),
        due(queue, seen, i) < queue.len() ==> is_due(queue[due(queue, seen, i)], seen),
        forall|k: int| i <= k < due(queue, seen, i) ==> !is_due(#[trigger] queue[k], seen),
    decreases queue.len() - i,
{
    if i < queue.len() && !is_due(queue[i], seen) {
        lemma_due(queue, seen, i + 1);
    }
}

/// What is added for the imports of a movie.
proof fn lemma_onward(b: Seq<char>, v: Seq<Import>, seen: Seq<Seq<char>>, n: nat)
    requires
        n <= v.len(),
    ensures
        forall|j: int|
            0 <= j < onward(b, v, seen, n).len() ==> exists|i: int|
                0 <= i < n && #[trigger] onward(b, v, seen, n)[j] == movie_path(
                    b,
                    (#[trigger] v[i]).movie,
                ),
        forall|i: int|
            0 <= i < n ==> seen.contains((#[trigger] v[i]).movie) || onward(b, v, seen, n).contains(
                movie_path(b, v[i].movie),
            ),
    decreases n,
{
    if n > 0 {
        let m = (n - 1) as nat;
        lemma_onward(b, v, seen, m);
        let before = onward(b, v, seen, m);
        let all = onward(b, v, seen, n);
        assert forall|j: int| 0 <= j < all.len() implies exists|i: int|
            0 <= i < n && #[trigger] all[j] == movie_path(b, (#[trigger] v[i]).movie) by {
            if j < before.len() {
                let i = choose|i: int|
                    0 <= i < m && #[trigger] before[j] == movie_path(b, (#[trigger] v[i]).movie);
                assert(all[j] == movie_path(b, v[i].movie));
            } else {
                assert(all[j] == movie_path(b, v[m as int].movie));
            }
        }
        assert forall|i: int| 0 <= i < n implies seen.contains((#[trigger] v[i]).movie)
            || all.contains(movie_path(b, v[i].movie)) by {
            if !seen.contains(v[i].movie) {
                if i < m {
                    let j = choose|j: int|
                        0 <= j < before.len() && before[j] == movie_path(b, v[i].movie);
                    assert(all[j] == movie_path(b, v[i].movie));
                } else {
                    assert(all[before.len() as int] == movie_path(b, v[i].movie));
                }
            }
        }
    }
}

/// Whether a name was converted or is still to come.
pub open spec fn noted(s: Stage, name: Seq<char>) -> bool {
    s.seen.contains(name) || exists|k: int|
        0 <= k < s.queue.len() && base_name(#[trigger] s.queue[k]) == name
}

/// What holds all along a walk.
pub open spec fn on_track(lib: Library, base: Seq<char>, s: Stage, n: nat) -> bool {
    &&& forall|k: int|
        0 <= k < s.queue.len() ==> {
            let q = #[trigger] s.queue[k];
            let name = base_name(q);
            &&& is_name(name)
            &&& folder(q) == folder(base)
            &&& reached(lib, base, name, n)
            &&& q == place(base, name) || s.seen.contains(name)
        }
    &&& forall|k: int|
        0 <= k < s.seen.len() ==> is_name(#[trigger] s.seen[k]) && reached(lib, base, s.seen[k], n)
    &&& noted(s, base_name(base))
    &&& n > 0 ==> s.seen.contains(base_name(base))
    &&& forall|k: int, i: int|
        0 <= k < s.seen.len() && 0 <= i < lib(place(base, s.seen[k])).len() ==> noted(
            s,
            import_name((#[trigger] lib(place(base, s.seen[k]))[i]).movie),
        )
}

/// One step keeps what was noted.
proof fn lemma_noted(lib: Library, base: Seq<char>, s: Stage, t: Stage, k: int, n: nat, x: Seq<char>)
    requires
        on_track(lib, base, s, n),
        k == due(s.queue, s.seen, 0),
        0 <= k < s.queue.len(),
        t.seen == s.seen.push(base_name(s.queue[k])),
        forall|j: int| k < j < s.queue.len() ==> t.queue.contains(#[trigger] s.queue[j]),
        noted(s, x),
    ensures
        noted(t, x),
{
    lemma_due(s.queue, s.seen, 0);
    if s.seen.contains(x) {
        let i = choose|i: int| 0 <= i < s.seen.len() && s.seen[i] == x;
        assert(t.seen[i] == x);
    } else {
        let j = choose|j: int| 0 <= j < s.queue.len() && base_name(#[trigger] s.queue[j]) == x;
        if j < k {
            assert(!is_due(s.queue[j], s.seen));
            assert(is_name(base_name(s.queue[j])));
        } else if j == k {
            assert(t.seen[s.seen.len() as int] == x);
        } else {
            let i = choose|i: int| 0 <= i < t.queue.len() && t.queue[i] == s.queue[j];
            assert(base_name(t.queue[i]) == x);
        }
    }
}

proof fn lemma_step(lib: Library, base: Seq<char>, n: nat)
    requires
        is_name(base_name(base)),
        all_named(lib),
        on_track(lib, base, walked(lib, base, n), n),
        n == 0 ==> walked(lib, base, 0).queue.len() == 1,
    ensures
        on_track(lib, base, walked(lib, base, n + 1), n + 1),
{
    let s = walked(lib, base, n);
    let t = walked(lib, base, n + 1);
    let k = due(s.queue, s.seen, 0);
    lemma_due(s.queue, s.seen, 0);
    if k < s.queue.len() {
        let b = s.queue[k];
        let name = base_name(b);
        let v = lib(b);
        let more = onward(b, v, t.seen, v.len());
        lemma_onward(b, v, t.seen, v.len());
        assert(b == place(base, name));
        assert(t.seen[s.seen.len() as int] == name);
        assert(t.seen.contains(name));
        assert forall|j: int| k < j < s.queue.len() implies t.queue.contains(#[trigger] s.queue[j]) by {
            assert(t.queue[j - k - 1] == s.queue[j]);
        }
        assert(n == 0 ==> name == base_name(base));
        assert(t.seen.contains(base_name(base))) by {
            if n > 0 {
                let i = choose|i: int| 0 <= i < s.seen.len() && s.seen[i] == base_name(base);
                assert(t.seen[i] == base_name(base));
            }
        }
        assert forall|j: int| 0 <= j < t.queue.len() implies {
            let q = #[trigger] t.queue[j];
            let x = base_name(q);
            &&& is_name(x)
            &&& folder(q) == folder(base)
            &&& reached(lib, base, x, n + 1)
            &&& q == place(base, x) || t.seen.contains(x)
        } by {
            let left = s.queue.skip(k + 1);
            if j < left.len() {
                let q = s.queue[j + k + 1];
                assert(t.queue[j] == q);
                lemma_further(lib, base, base_name(q), base_name(q), n);
                if s.seen.contains(base_name(q)) {
                    let i = choose|i: int| 0 <= i < s.seen.len() && s.seen[i] == base_name(q);
                    assert(t.seen[i] == base_name(q));
                }
            } else {
                let e = more[j - left.len()];
                assert(t.queue[j] == e);
                let i = choose|i: int|
                    0 <= i < v.len() && e == movie_path(b, (#[trigger] v[i]).movie);
                assert(is_name(import_name(lib(b)[i].movie)));
                lemma_sibling(base, b, v[i].movie);
                assert(imports(lib, base, name, import_name(v[i].movie))) by {
                    assert(lib(place(base, name))[i] == v[i]);
                }
                lemma_further(lib, base, name, import_name(v[i].movie), n);
            }
        }
        assert forall|j: int| 0 <= j < t.seen.len() implies is_name(#[trigger] t.seen[j])
            && reached(lib, base, t.seen[j], n + 1) by {
            if j < s.seen.len() {
                assert(t.seen[j] == s.seen[j]);
            }
            lemma_further(lib, base, t.seen[j], t.seen[j], n);
        }
        assert forall|j: int, i: int|
            0 <= j < t.seen.len() && 0 <= i < lib(place(base, t.seen[j])).len() implies noted(
            t,
            import_name((#[trigger] lib(place(base, t.seen[j]))[i]).movie),
        ) by {
            let x = import_name(lib(place(base, t.seen[j]))[i].movie);
            if j < s.seen.len() {
                assert(t.seen[j] == s.seen[j]);
                assert(noted(s, import_name(lib(place(base, s.seen[j]))[i].movie)));
                lemma_noted(lib, base, s, t, k, n, x);
            } else {
                assert(lib(place(base, t.seen[j]))[i] == v[i]);
                let movie = v[i].movie;
                assert(is_name(import_name(lib(b)[i].movie)));
                if t.seen.contains(movie) {
                    let w = choose|w: int| 0 <= w < t.seen.len() && t.seen[w] == movie;
                    assert(is_name(t.seen[w]));
                    lemma_import_start(movie);
                    assert(import_name(movie) =~= movie);
                } else {
                    lemma_sibling(base, b, movie);
                    let w = choose|w: int| 0 <= w < more.len() && more[w] == movie_path(b, movie);
                    let left = s.queue.skip(k + 1);
                    assert(t.queue[left.len() + w] == movie_path(b, movie));
                    assert(base_name(t.queue[left.len() + w]) == x);
                }
            }
        }
    } else {
        assert forall|j: int| 0 <= j < s.queue.len() implies reached(
            lib,
            base,
            base_name(#[trigger] s.queue[j]),
            n + 1,
        ) by {
            lemma_further(lib, base, base_name(s.queue[j]), base_name(s.queue[j]), n);
        }
        assert forall|j: int| 0 <= j < s.seen.len() implies reached(
            lib,
            base,
            #[trigger] s.seen[j],
            n + 1,
        ) by {
            lemma_further(lib, base, s.seen[j], s.seen[j], n);
        }
        if n == 0 {
            assert(!is_due(s.queue[0], s.seen));
        }
    }
}

proof fn lemma_on_track(lib: Library, base: Seq<char>, n: nat)
    requires
        is_name(base_name(base)),
        all_named(lib),
    ensures
        on_track(lib, base, walked(lib, base, n), n),
    decreases n,
{
    if n == 0 {
        let s = walked(lib, base, 0);
        assert(s.queue[0] == base);
        assert(noted(s, base_name(base)));
    } else {
        lemma_on_track(lib, base, (n - 1) as nat);
        lemma_step(lib, base, (n - 1) as nat);
    }
}

/// What is noted at the end was converted.
proof fn lemma_over(lib: Library, base: Seq<char>, s: Stage, n: nat, x: Seq<char>)
    requires
        on_track(lib, base, s, n),
        is_over(s),
        noted(s, x),
    ensures
        s.seen.contains(x),
{
    lemma_due(s.queue, s.seen, 0);
    if !s.seen.contains(x) {
        let j = choose|j: int| 0 <= j < s.queue.len() && base_name(#[trigger] s.queue[j]) == x;
        assert(!is_due(s.queue[j], s.seen));
    }
}

proof fn lemma_reached_seen(lib: Library, base: Seq<char>, s: Stage, n: nat, x: Seq<char>, m: nat)
    requires
        on_track(lib, base, s, n),
        is_over(s),
        reached(lib, base, x, m),
    ensures
        s.seen.contains(x),
    decreases m,
{
    if x == base_name(base) {
        lemma_over(lib, base, s, n, x);
    } else {
        let from = lemma_nearer(lib, base, x, m);
        lemma_reached_seen(lib, base, s, n, from, (m - 1) as nat);
        if from != x {
            lemma_imported_seen(lib, base, s, n, from, x);
        }
    }
}

proof fn lemma_imported_seen(
    lib: Library,
    base: Seq<char>,
    s: Stage,
    n: nat,
    from: Seq<char>,
    x: Seq<char>,
)
    requires
        on_track(lib, base, s, n),
        is_over(s),
        s.seen.contains(from),
        imports(lib, base, from, x),
    ensures
        s.seen.contains(x),
{
    let k = choose|k: int| 0 <= k < s.seen.len() && s.seen[k] == from;
    let i = choose|i: int|
        0 <= i < lib(place(base, from)).len() && import_name(
            (#[trigger] lib(place(base, from))[i]).movie,
        ) == x;
    assert(noted(s, import_name(lib(place(base, s.seen[k]))[i].movie)));
    lemma_over(lib, base, s, n, x);
}

/// A walk that has come to its end has converted exactly the movie it started at and
/// those that are imported from there, directly or not. Every import has to go by a
/// name: one without a name, or by the name `.`, leads to the directory itself.
pub proof fn law_walk(lib: Library, base: Seq<char>, n: nat, name: Seq<char>)
    requires
        is_name(base_name(base)),
        all_named(lib),
        is_over(walked(lib, base, n)),
    ensures
        walked(lib, base, n).seen.contains(name) <==> exists|m: nat| reached(lib, base, name, m),
{
    let s = walked(lib, base, n);
    lemma_on_track(lib, base, n);
    if s.seen.contains(name) {
        let k = choose|k: int| 0 <= k < s.seen.len() && s.seen[k] == name;
        assert(reached(lib, base, s.seen[k], n));
    }
    if exists|m: nat| reached(lib, base, name, m) {
        let m = choose|m: nat| reached(lib, base, name, m);
        lemma_reached_seen(lib, base, s, n, name, m);
    }
}

} // verus!
