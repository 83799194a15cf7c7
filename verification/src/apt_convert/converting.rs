//! Converting movies on disk: how, and in which order.
use super::imports::resolve_movie;
use super::merging::movie_path;
use crate::apt::model;
use crate::apt::types::{Import, Movie};
use crate::paths::{self, file_name};
use crate::text;
use vstd::prelude::*;

verus! {

/// How to convert a movie from disk.
#[derive(Debug, Clone, Copy, PartialEq, Eq, Structural)]
pub struct ConvertOptions {
    /// Embed textures as SWF bitmap fills rather than drawing textured shapes with
    /// their flat vertex color.
    pub textures: bool,
    /// Copy imported characters into the movie instead of keeping the import.
    ///
    /// Off by default: imports are preserved, mirroring how a shared library movie
    /// ships that the screens reference. That means the imported movies must be
    /// converted too. Turn this on for a single self-contained file at the cost of
    /// duplicating the shared art.
    pub inline_imports: bool,
    /// Replace the movie's own background color (RGB). `None` keeps the movie's.
    pub override_background: Option<u32>,
}

impl Default for ConvertOptions {
    fn default() -> (o: ConvertOptions)
        ensures
            o.textures,
            !o.inline_imports,
            o.override_background is None,
    {
        ConvertOptions { textures: true, inline_imports: false, override_background: None }
    }
}

impl ConvertOptions {
    /// Whether the imports of a movie are copied into it.
    pub fn inlines(&self, movie: &Movie) -> (b: bool)
        ensures
            b == (self.inline_imports && movie@.imports.len() > 0),
    {
        self.inline_imports && movie.imports.len() > 0
    }
}

/// One converted movie.
pub struct ConvertedMovie {
    /// Movie base name: the file belongs at `<name>.swf` next to its siblings for
    /// imports to resolve.
    pub name: String,
    /// Base path the movie was read from (no extension).
    pub base: String,
    pub swf: Vec<u8>,
}

/// The name of the movie at a base path; empty where the path ends in no name.
pub open spec fn base_name(base: Seq<char>) -> Seq<char> {
    match file_name(base) {
        Some(n) => n,
        None => Seq::empty(),
    }
}

/// Whether there is a movie to convert at a base path: it has a name, and no movie
/// of that name was converted.
pub open spec fn is_due(base: Seq<char>, seen: Seq<Seq<char>>) -> bool {
    base_name(base).len() > 0 && !seen.contains(base_name(base))
}

/// The first base path from the `i`-th on with a movie to convert.
pub open spec fn due(queue: Seq<Seq<char>>, seen: Seq<Seq<char>>, i: int) -> int
    decreases queue.len() - i,
{
    if i >= queue.len() || is_due(queue[i], seen) {
        i
    } else {
        due(queue, seen, i + 1)
    }
}

/// The base paths of the movies that the first `n` imports name, but for those whose
/// name was converted.
pub open spec fn onward(base: Seq<char>, v: Seq<model::Import>, seen: Seq<Seq<char>>, n: nat) -> Seq<
    Seq<char>,
>
    decreases n,
{
    if n == 0 {
        Seq::empty()
    } else {
        let before = onward(base, v, seen, (n - 1) as nat);
        if seen.contains(v[n - 1].movie) {
            before
        } else {
            before.push(movie_path(base, v[n - 1].movie))
        }
    }
}

/// The movies to convert: a movie, and those that it imports, directly or not.
pub struct Walk {
    /// The base paths to look at.
    pub queue: Vec<String>,
    /// The names of the movies that were converted.
    pub seen: Vec<String>,
}

/// A movie to convert.
pub struct Due {
    pub name: String,
    pub base: String,
}

fn holds(v: &Vec<String>, s: &str) -> (b: bool)
    ensures
        b == model::names(v@).contains(s@),
{
    let ghost n = model::names(v@);
    let mut i: usize = 0;
    while i < v.len()
        invariant
            n == model::names(v@),
            i <= v@.len(),
            forall|k: int| 0 <= k < i ==> #[trigger] n[k] != s@,
        decreases v@.len() - i,
    {
        if text::same_text(v[i].as_str(), s) {
            assert(n[i as int] == s@);
            return true;
        }
        i = i + 1;
    }
    false
}

impl Walk {
    /// The queue, seen as texts.
    pub open spec fn waiting(self) -> Seq<Seq<char>> {
        model::names(self.queue@)
    }

    /// The names that were converted, seen as texts.
    pub open spec fn done(self) -> Seq<Seq<char>> {
        model::names(self.seen@)
    }

    /// Starts at a movie.
    pub fn new(base: &str) -> (w: Walk)
        ensures
            w.waiting() == seq![base@],
            w.done() == Seq::<Seq<char>>::empty(),
    {
        let mut queue: Vec<String> = Vec::new();
        queue.push(text::copy_of(base));
        let w = Walk { queue, seen: Vec::new() };
        assert(w.waiting() =~= seq![base@]);
        assert(w.done() =~= Seq::<Seq<char>>::empty());
        w
    }

    /// The next movie to convert; its name counts as converted from here on.
    pub fn next(&mut self) -> (r: Option<Due>)
        ensures
            ({
                let k = due(old(self).waiting(), old(self).done(), 0);
                if k < old(self).waiting().len() {
                    &&& r matches Some(d)
                    &&& d.base@ == old(self).waiting()[k]
                    &&& d.name@ == base_name(d.base@)
                    &&& d.name@.len() > 0
                    &&& !old(self).done().contains(d.name@)
                    &&& final(self).waiting() == old(self).waiting().skip(k + 1)
                    &&& final(self).done() == old(self).done().push(d.name@)
                } else {
                    &&& r is None
                    &&& final(self).waiting().len() == 0
                    &&& final(self).done() == old(self).done()
                }
            }),
    {
        let ghost first = self.waiting();
        let ghost seen = self.done();
        let ghost mut i: int = 0;
        assert(first.skip(0) =~= first);
        while self.queue.len() > 0
            invariant
                0 <= i <= first.len(),
                self.waiting() == first.skip(i),
                self.done() == seen,
                due(first, seen, 0) == due(first, seen, i),
                first == old(self).waiting(),
                seen == old(self).done(),
            decreases self.queue@.len(),
        {
            let ghost now = self.queue@;
            let base = self.queue.remove(0);
            proof {
                assert(base@ == first.skip(i)[0]);
                assert(model::names(self.queue@) =~= model::names(now).skip(1));
                assert(first.skip(i).skip(1) =~= first.skip(i + 1));
            }
            if let Some(name) = paths::name_of(base.as_str()) {
                if !holds(&self.seen, name.as_str()) {
                    let ghost before = self.done();
                    self.seen.push(name.clone());
                    assert(self.done() =~= before.push(name@));
                    return Some(Due { name, base });
                }
            }
            proof {
                i = i + 1;
            }
        }
        None
    }

    /// Adds the movies that a movie imports.
    pub fn follow(&mut self, base: &str, imports: &Vec<Import>)
        ensures
            final(self).done() == old(self).done(),
            final(self).waiting() == old(self).waiting() + onward(
                base@,
                model::views(imports@),
                old(self).done(),
                imports@.len(),
            ),
    {
        let ghost m = model::views(imports@);
        let ghost first = self.waiting();
        let ghost seen = self.done();
        let mut i: usize = 0;
        assert(first + onward(base@, m, seen, 0) =~= first);
        while i < imports.len()
            invariant
                m == model::views(imports@),
                i <= imports@.len(),
                self.done() == seen,
                self.waiting() == first + onward(base@, m, seen, i as nat),
            decreases imports@.len() - i,
        {
            assert(m[i as int] == imports@[i as int]@);
            let movie = imports[i].movie.as_str();
            if !holds(&self.seen, movie) {
                let ghost before = self.waiting();
                let path = resolve_movie(base, movie);
                self.queue.push(path);
                assert(self.waiting() =~= before.push(path@));
            }
            i = i + 1;
            assert(self.waiting() =~= first + onward(base@, m, seen, i as nat));
        }
    }
}

} // verus!
