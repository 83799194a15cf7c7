//! Import resolution: inlining characters from sibling movies.
//!
//! Imports are resolved by copying the referenced character, and everything it
//! transitively references, into the movie, so that the converted movie is
//! self-contained. Copied characters keep an [`Origin`], because their geometry
//! and textures still live next to the movie they came from.
use super::merging;
use crate::apt::copies;
use crate::apt::model;
use crate::apt::types::{
    ButtonRecord, ButtonSounds, Character, CharacterSlot, Control, Frame, Import, Morph, Movie,
    StaticTextRecord,
};
use crate::apt::AptFile;
use crate::paths;
use crate::text;
use vstd::prelude::*;

verus! {

/// The base path of the movie `from_base` imports under the name `movie`.
///
/// Import names are authoring-time paths, with either separator. The games ship
/// every movie flat in one archive and resolve by name, so the directory part is
/// dropped.
pub fn resolve_movie(from_base: &str, movie: &str) -> (r: String)
    ensures
        r@ == merging::movie_path(from_base@, movie@),
{
    let name = text::to_chars(movie);
    let mut n: usize = name.len();
    assert(name@.take(n as int) =~= name@);
    while n > 0 && name[n - 1] != '/' && name[n - 1] != '\\'
        invariant
            n <= name@.len(),
            merging::import_start(name@.take(n as int)) == merging::import_start(name@),
        decreases n,
    {
        assert(name@.take(n as int).take(n - 1) =~= name@.take(n - 1));
        n = n - 1;
    }
    let mut out = paths::folder_of(from_base);
    let tail = text::from_chars(&name, n, name.len());
    text::push_text(&mut out, tail.as_str());
    proof {
        assert(name@.take(n as int).len() == n);
        assert(out@ =~= merging::movie_path(from_base@, movie@));
    }
    out
}

/// Which movie a character in a resolved movie came from, and its index there.
#[derive(Debug, Clone, PartialEq, Eq, Hash)]
pub struct Origin {
    /// Movie base path (no extension).
    pub base: String,
    /// Character index within that movie.
    pub index: u32,
}

impl View for Origin {
    type V = merging::Origin;

    open spec fn view(&self) -> merging::Origin {
        merging::Origin { base: self.base@, index: self.index }
    }
}

impl Origin {
    fn duplicate(&self) -> (r: Origin)
        ensures
            r@ == self@,
    {
        Origin { base: self.base.clone(), index: self.index }
    }

    fn is(&self, base: &str, index: u32) -> (b: bool)
        ensures
            b == (self@ == (merging::Origin { base: base@, index })),
    {
        self.index == index && text::same_text(self.base.as_str(), base)
    }
}

/// Why an import cannot be resolved.
#[derive(Debug)]
pub enum Fault {
    /// The movie cannot be loaded.
    Unloadable(String),
    /// The movie has no such export.
    NoExport(String),
    /// The character is empty and not imported.
    EmptySlot(Origin),
    /// The slot holds no character.
    NotACharacter(Origin),
    /// The movie that imports has no such slot.
    NoSlot(u32),
    /// More imports lead on from one another than there are: they go round in a circle.
    Circular,
    /// There are more characters than indices.
    TooMany,
}

impl View for Fault {
    type V = merging::Fault;

    open spec fn view(&self) -> merging::Fault {
        match *self {
            Fault::Unloadable(b) => merging::Fault::Unloadable(b@),
            Fault::NoExport(n) => merging::Fault::NoExport(n@),
            Fault::EmptySlot(o) => merging::Fault::EmptySlot(o@),
            Fault::NotACharacter(o) => merging::Fault::NotACharacter(o@),
            Fault::NoSlot(n) => merging::Fault::NoSlot(n),
            Fault::Circular => merging::Fault::Circular,
            Fault::TooMany => merging::Fault::TooMany,
        }
    }
}

/// A movie that was asked for, and what loading it gave.
pub struct Source {
    pub base: String,
    pub file: Option<AptFile>,
}

impl View for Source {
    type V = merging::Source;

    open spec fn view(&self) -> merging::Source {
        merging::Source {
            base: self.base@,
            file: match self.file {
                Some(f) => Some(f@),
                None => None,
            },
        }
    }
}

fn control_ref(c: &Control) -> (r: Option<u32>)
    ensures
        r == merging::control_ref(c@),
{
    match c {
        Control::PlaceObject(p) => match p.character_id {
            Some(id) => if id >= 0 {
                Some(id as u32)
            } else {
                None
            },
            None => None,
        },
        Control::InitAction { sprite_id, .. } => if *sprite_id >= 0 {
            Some(*sprite_id as u32)
        } else {
            None
        },
        _ => None,
    }
}

fn control_put(c: &Control, id: u32) -> (r: Control)
    ensures
        r@ == merging::control_put(c@, id),
{
    match c {
        Control::PlaceObject(p) => {
            let mut copy = p.duplicate();
            copy.character_id = Some(id as i32);
            Control::PlaceObject(copy)
        },
        Control::InitAction { actions, .. } => Control::InitAction {
            sprite_id: id as i32,
            actions: actions.duplicate(),
        },
        _ => c.duplicate(),
    }
}

fn frames_refs(v: &Vec<Frame>) -> (out: Vec<u32>)
    ensures
        out@ == merging::frames_refs(model::views(v@), v@.len()),
{
    let mut out: Vec<u32> = Vec::new();
    let ghost m = model::views(v@);
    let mut i: usize = 0;
    while i < v.len()
        invariant
            m == model::views(v@),
            i <= v@.len(),
            out@ == merging::frames_refs(m, i as nat),
        decreases v@.len() - i,
    {
        let controls = &v[i].controls;
        let ghost c = m[i as int].controls;
        let ghost before = out@;
        assert(c == model::views(controls@));
        assert(out@ =~= before + merging::controls_refs(c, 0));
        let mut k: usize = 0;
        while k < controls.len()
            invariant
                c == model::views(controls@),
                k <= controls@.len(),
                out@ == before + merging::controls_refs(c, k as nat),
            decreases controls@.len() - k,
        {
            assert(c[k as int] == controls@[k as int]@);
            if let Some(id) = control_ref(&controls[k]) {
                out.push(id);
            }
            k = k + 1;
            assert(out@ =~= before + merging::controls_refs(c, k as nat));
        }
        i = i + 1;
    }
    out
}

proof fn lemma_controls_refs(v: Seq<model::Control>, a: nat, b: nat)
    requires
        a <= b,
    ensures
        merging::controls_refs(v, a).len() <= merging::controls_refs(v, b).len(),
    decreases b,
{
    if a < b {
        lemma_controls_refs(v, a, (b - 1) as nat);
    }
}

proof fn lemma_frames_refs(v: Seq<model::Frame>, a: nat, b: nat)
    requires
        a <= b,
    ensures
        merging::frames_refs(v, a).len() <= merging::frames_refs(v, b).len(),
    decreases b,
{
    if a < b {
        lemma_frames_refs(v, a, (b - 1) as nat);
    }
}

proof fn lemma_texts_refs(v: Seq<model::StaticTextRecord>, a: nat, b: nat)
    requires
        a <= b,
    ensures
        merging::texts_refs(v, a).len() <= merging::texts_refs(v, b).len(),
    decreases b,
{
    if a < b {
        lemma_texts_refs(v, a, (b - 1) as nat);
    }
}

fn controls_put(v: &Vec<Control>, ids: &Vec<u32>, at: usize) -> (out: Vec<Control>)
    requires
        at + merging::controls_refs(model::views(v@), v@.len()).len() <= ids@.len(),
    ensures
        model::views(out@) == merging::controls_put(model::views(v@), ids@, at as int),
{
    let mut out: Vec<Control> = Vec::new();
    let ghost c = model::views(v@);
    let mut next: usize = at;
    let mut k: usize = 0;
    let total: usize = ids.len();
    while k < v.len()
        invariant
            total == ids@.len(),
            c == model::views(v@),
            k <= v@.len(),
            out@.len() == k,
            next == at + merging::controls_refs(c, k as nat).len(),
            at + merging::controls_refs(c, v@.len()).len() <= ids@.len(),
            forall|j: int|
                0 <= j < k ==> (#[trigger] out@[j])@ == merging::controls_put(
                    c,
                    ids@,
                    at as int,
                )[j],
        decreases v@.len() - k,
    {
        assert(c[k as int] == v@[k as int]@);
        proof {
            lemma_controls_refs(c, (k + 1) as nat, v@.len());
        }
        if control_ref(&v[k]).is_some() {
            out.push(control_put(&v[k], ids[next]));
            next = next + 1;
        } else {
            out.push(v[k].duplicate());
        }
        k = k + 1;
    }
    assert(model::views(out@) =~= merging::controls_put(c, ids@, at as int));
    out
}

fn frames_put(v: &Vec<Frame>, ids: &Vec<u32>) -> (out: Vec<Frame>)
    requires
        merging::frames_refs(model::views(v@), v@.len()).len() == ids@.len(),
    ensures
        model::views(out@) == merging::frames_put(model::views(v@), ids@),
{
    let mut out: Vec<Frame> = Vec::new();
    let ghost m = model::views(v@);
    let mut i: usize = 0;
    let mut at: usize = 0;
    let total: usize = ids.len();
    while i < v.len()
        invariant
            total == ids@.len(),
            m == model::views(v@),
            i <= v@.len(),
            out@.len() == i,
            at == merging::frames_refs(m, i as nat).len(),
            merging::frames_refs(m, v@.len()).len() == ids@.len(),
            forall|j: int| 0 <= j < i ==> (#[trigger] out@[j])@ == merging::frames_put(m, ids@)[j],
        decreases v@.len() - i,
    {
        assert(m[i as int] == v@[i as int]@);
        proof {
            lemma_frames_refs(m, (i + 1) as nat, v@.len());
        }
        let controls = controls_put(&v[i].controls, ids, at);
        let frame = Frame { controls };
        assert(frame@ == merging::frames_put(m, ids@)[i as int]);
        out.push(frame);
        at = at + count_refs(&v[i].controls, total);
        i = i + 1;
    }
    assert(model::views(out@) =~= merging::frames_put(m, ids@));
    out
}

fn count_refs(v: &Vec<Control>, limit: usize) -> (n: usize)
    requires
        merging::controls_refs(model::views(v@), v@.len()).len() <= limit,
    ensures
        n == merging::controls_refs(model::views(v@), v@.len()).len(),
{
    let ghost c = model::views(v@);
    let mut n: usize = 0;
    let mut k: usize = 0;
    while k < v.len()
        invariant
            c == model::views(v@),
            k <= v@.len(),
            n == merging::controls_refs(c, k as nat).len(),
            merging::controls_refs(c, v@.len()).len() <= limit,
        decreases v@.len() - k,
    {
        assert(c[k as int] == v@[k as int]@);
        proof {
            lemma_controls_refs(c, (k + 1) as nat, v@.len());
        }
        if control_ref(&v[k]).is_some() {
            n = n + 1;
        }
        k = k + 1;
    }
    n
}

fn texts_put(v: &mut Vec<StaticTextRecord>, ids: &Vec<u32>)
    requires
        merging::texts_refs(model::views(old(v)@), old(v)@.len()).len() == ids@.len(),
    ensures
        model::views(final(v)@) == merging::texts_put(model::views(old(v)@), ids@),
{
    let ghost m = model::views(v@);
    let ghost first = v@;
    let mut next: usize = 0;
    let mut k: usize = 0;
    let total: usize = ids.len();
    while k < v.len()
        invariant
            total == ids@.len(),
            m == model::views(first),
            first.len() == v@.len(),
            k <= v@.len(),
            next == merging::texts_refs(m, k as nat).len(),
            merging::texts_refs(m, first.len()).len() == ids@.len(),
            forall|j: int| 0 <= j < k ==> (#[trigger] v@[j])@ == merging::texts_put(m, ids@)[j],
            forall|j: int| k <= j < v@.len() ==> #[trigger] v@[j] == first[j],
        decreases v@.len() - k,
    {
        proof {
            lemma_texts_refs(m, (k + 1) as nat, first.len());
        }
        assert(m[k as int] == first[k as int]@);
        if v[k].font_id >= 0 {
            let id: u32 = ids[next];
            let mut record = StaticTextRecord {
                font_id: id as i32,
                cxform: v[k].cxform,
                x_offset: v[k].x_offset,
                y_offset: v[k].y_offset,
                scale: v[k].scale,
                glyphs: Vec::new(),
            };
            record.glyphs = v[k].glyphs.clone();
            assert(record.glyphs@ =~= v@[k as int].glyphs@);
            v.set(k, record);
            next = next + 1;
        }
        assert(v@[k as int]@ == merging::texts_put(m, ids@)[k as int]);
        k = k + 1;
    }
    assert(model::views(v@) =~= merging::texts_put(m, ids@));
}

fn records_put(v: &mut Vec<ButtonRecord>, ids: &Vec<u32>)
    requires
        old(v)@.len() <= ids@.len(),
    ensures
        model::views(final(v)@) == merging::records_put(model::views(old(v)@), ids@),
{
    let ghost first = v@;
    let ghost m = model::views(v@);
    let mut i: usize = 0;
    while i < v.len()
        invariant
            v@.len() == first.len(),
            m == model::views(first),
            i <= first.len() <= ids@.len(),
            forall|j: int| 0 <= j < i ==> (#[trigger] v@[j])@ == merging::records_put(m, ids@)[j],
            forall|j: int| i <= j < first.len() ==> #[trigger] v@[j] == first[j],
        decreases first.len() - i,
    {
        let mut record = v[i];
        record.character_id = ids[i];
        v.set(i, record);
        i = i + 1;
    }
    assert(model::views(v@) =~= merging::records_put(m, ids@));
}

fn push_sound(out: &mut Vec<u32>, id: u32)
    ensures
        final(out)@ == old(out)@ + merging::sound_ref(id),
{
    if id != 0 {
        out.push(id);
    }
    assert(out@ =~= old(out)@ + merging::sound_ref(id));
}

fn sound_put(id: u32, ids: &Vec<u32>, at: usize) -> (r: (u32, usize))
    requires
        at + merging::sound_ref(id).len() <= ids@.len(),
    ensures
        r.0 == merging::sound_put(id, ids@, at as int),
        r.1 == at + merging::sound_ref(id).len(),
{
    if id == 0 {
        (0, at)
    } else {
        let total: usize = ids.len();
        (ids[at], at + 1)
    }
}

/// The characters that a character refers to, in order.
fn refs(c: &Character) -> (out: Vec<u32>)
    ensures
        out@ == merging::refs(c@),
{
    match c {
        Character::Sprite(s) => frames_refs(&s.frames),
        Character::Button(b) => {
            let mut out: Vec<u32> = Vec::new();
            let mut i: usize = 0;
            while i < b.records.len()
                invariant
                    i <= b.records@.len(),
                    out@ == merging::records_refs(model::views(b.records@)).take(i as int),
                decreases b.records@.len() - i,
            {
                out.push(b.records[i].character_id);
                i = i + 1;
                assert(out@ =~= merging::records_refs(model::views(b.records@)).take(i as int));
            }
            assert(out@ =~= merging::records_refs(model::views(b.records@)));
            if let Some(s) = &b.sounds {
                push_sound(&mut out, s.over_up_to_idle);
                push_sound(&mut out, s.idle_to_over_up);
                push_sound(&mut out, s.over_up_to_over_down);
                push_sound(&mut out, s.over_down_to_over_up);
            }
            assert(out@ =~= merging::refs(c@));
            out
        },
        Character::Font(f) => {
            let out = f.glyphs.clone();
            assert(out@ =~= f.glyphs@);
            out
        },
        Character::Morph(m) => {
            let mut out: Vec<u32> = Vec::new();
            out.push(m.start_character_id);
            out.push(m.end_character_id);
            assert(out@ =~= merging::refs(c@));
            out
        },
        Character::Text(t) => {
            let mut out: Vec<u32> = Vec::new();
            if t.font_id >= 0 {
                out.push(t.font_id as u32);
            }
            assert(out@ =~= merging::refs(c@));
            out
        },
        Character::StaticText(t) => {
            let mut out: Vec<u32> = Vec::new();
            let ghost m = model::views(t.records@);
            let mut i: usize = 0;
            while i < t.records.len()
                invariant
                    m == model::views(t.records@),
                    i <= t.records@.len(),
                    out@ == merging::texts_refs(m, i as nat),
                decreases t.records@.len() - i,
            {
                assert(m[i as int] == t.records@[i as int]@);
                if t.records[i].font_id >= 0 {
                    out.push(t.records[i].font_id as u32);
                }
                i = i + 1;
                assert(out@ =~= merging::texts_refs(m, i as nat));
            }
            out
        },
        _ => Vec::new(),
    }
}

/// The character with other references.
fn put(c: &Character, ids: &Vec<u32>) -> (r: Character)
    requires
        ids@.len() == merging::refs(c@).len(),
    ensures
        r@ == merging::put(c@, ids@),
{
    let mut copy = c.duplicate();
    match &mut copy {
        Character::Sprite(s) => {
            s.frames = frames_put(&s.frames, ids);
        },
        Character::Button(b) => {
            let ghost all = merging::refs(model::Character::Button(b@));
            assert(all == merging::refs(c@));
            assert(merging::records_refs(model::views(b.records@)).len() == b.records@.len());
            records_put(&mut b.records, ids);
            assert(model::views(b.records@).len() == b.records@.len());
            if let Some(s) = b.sounds {
                let at: usize = b.records.len();
                assert(all.len() == at + merging::sounds_refs(s).len());
                let p = sound_put(s.over_up_to_idle, ids, at);
                let q = sound_put(s.idle_to_over_up, ids, p.1);
                let t = sound_put(s.over_up_to_over_down, ids, q.1);
                let u = sound_put(s.over_down_to_over_up, ids, t.1);
                b.sounds = Some(
                    ButtonSounds {
                        over_up_to_idle: p.0,
                        idle_to_over_up: q.0,
                        over_up_to_over_down: t.0,
                        over_down_to_over_up: u.0,
                    },
                );
            }
        },
        Character::Font(f) => {
            let glyphs = ids.clone();
            assert(glyphs@ =~= ids@);
            f.glyphs = glyphs;
        },
        Character::Morph(m) => {
            *m = Morph { start_character_id: ids[0], end_character_id: ids[1] };
        },
        Character::Text(t) => {
            if t.font_id >= 0 {
                let id: u32 = ids[0];
                t.font_id = id as i32;
            }
        },
        Character::StaticText(t) => {
            texts_put(&mut t.records, ids);
        },
        _ => {},
    }
    copy
}

/// Why a step ends: with a fault, or with the movie that is needed first.
enum Stop {
    Fault(Fault),
    Need(String),
}

/// What a step gave.
spec fn got<T, U>(r: Result<T, Stop>, u: U) -> merging::Got<U> {
    match r {
        Ok(_) => merging::Got::Value(u),
        Err(Stop::Fault(f)) => merging::Got::Fault(f@),
        Err(Stop::Need(b)) => merging::Got::Need(b@),
    }
}

spec fn got_id(r: Result<u32, Stop>) -> merging::Got<u32> {
    got(r, r->Ok_0)
}

spec fn got_ids(r: Result<Vec<u32>, Stop>) -> merging::Got<Seq<u32>> {
    got(r, (r->Ok_0)@)
}

/// The movie at a base path.
fn load<'a>(lib: &'a Vec<Source>, base: &str) -> (r: Result<&'a Movie, Stop>)
    ensures
        got(r, (r->Ok_0)@) == merging::load(model::views(lib@), base@),
{
    let ghost l = model::views(lib@);
    let mut i: usize = 0;
    while i < lib.len()
        invariant
            l == model::views(lib@),
            i <= lib@.len(),
            merging::source(l, base@, 0) == merging::source(l, base@, i as int),
        decreases lib@.len() - i,
    {
        assert(l[i as int] == lib@[i as int]@);
        if text::same_text(lib[i].base.as_str(), base) {
            return match &lib[i].file {
                Some(f) => Ok(&f.movie),
                None => Err(Stop::Fault(Fault::Unloadable(text::copy_of(base)))),
            };
        }
        i = i + 1;
    }
    Err(Stop::Need(text::copy_of(base)))
}

/// The character that a movie exports under a name.
fn export_index(lib: &Vec<Source>, base: &str, name: &str) -> (r: Result<u32, Stop>)
    ensures
        got_id(r) == merging::export_index(model::views(lib@), base@, name@),
{
    let movie = match load(lib, base) {
        Ok(m) => m,
        Err(stop) => return Err(stop),
    };
    let ghost m = movie@;
    let mut i: usize = 0;
    while i < movie.exports.len()
        invariant
            m == movie@,
            i <= movie.exports@.len(),
            merging::export_of(m, name@, 0) == merging::export_of(m, name@, i as int),
            merging::load(model::views(lib@), base@) == merging::Got::Value(m),
        decreases movie.exports@.len() - i,
    {
        assert(m.exports[i as int] == movie.exports@[i as int]@);
        if text::same_text(movie.exports[i].name.as_str(), name) {
            return Ok(movie.exports[i].character_id);
        }
        i = i + 1;
    }
    Err(Stop::Fault(Fault::NoExport(text::copy_of(name))))
}

fn import_of(movie: &Movie, index: u32) -> (r: Option<&Import>)
    ensures
        match r {
            Some(i) => merging::import_of(movie@, index, 0) == Some(i@),
            None => merging::import_of(movie@, index, 0) is None,
        },
{
    let ghost m = movie@;
    let mut i: usize = 0;
    while i < movie.imports.len()
        invariant
            m == movie@,
            i <= movie.imports@.len(),
            merging::import_of(m, index, 0) == merging::import_of(m, index, i as int),
        decreases movie.imports@.len() - i,
    {
        assert(m.imports[i as int] == movie.imports@[i as int]@);
        if movie.imports[i].character_id == index {
            return Some(&movie.imports[i]);
        }
        i = i + 1;
    }
    None
}

/// Where a character of another movie went.
struct Entry {
    origin: Origin,
    merged: u32,
}

impl View for Entry {
    type V = (merging::Origin, u32);

    closed spec fn view(&self) -> (merging::Origin, u32) {
        (self.origin@, self.merged)
    }
}

/// A movie being merged.
struct Merge {
    slots: Vec<CharacterSlot>,
    origins: Vec<Origin>,
    memo: Vec<Entry>,
}

impl View for Merge {
    type V = merging::State;

    closed spec fn view(&self) -> merging::State {
        merging::State {
            slots: model::views(self.slots@),
            origins: model::views(self.origins@),
            memo: model::views(self.memo@),
        }
    }
}

impl Merge {
    spec fn valid(self) -> bool {
        self.slots@.len() == self.origins@.len()
    }

    fn lookup(&self, base: &str, index: u32) -> (r: Option<u32>)
        ensures
            r == merging::lookup(self@.memo, merging::Origin { base: base@, index }, 0),
    {
        let ghost memo = self@.memo;
        let ghost o = merging::Origin { base: base@, index };
        let mut i: usize = 0;
        while i < self.memo.len()
            invariant
                memo == model::views(self.memo@),
                o == (merging::Origin { base: base@, index }),
                i <= self.memo@.len(),
                merging::lookup(memo, o, 0) == merging::lookup(memo, o, i as int),
            decreases self.memo@.len() - i,
        {
            assert(memo[i as int] == self.memo@[i as int]@);
            if self.memo[i].origin.is(base, index) {
                return Some(self.memo[i].merged);
            }
            i = i + 1;
        }
        None
    }

    fn remember(&mut self, origin: Origin, merged: u32)
        ensures
            final(self)@ == old(self)@.remember(origin@, merged),
            final(self).slots == old(self).slots,
            final(self).origins == old(self).origins,
    {
        self.memo.push(Entry { origin, merged });
        assert(self@ =~= old(self)@.remember(origin@, merged));
    }

    /// Room for a copy: the slot that is asked for, or a new one.
    fn claim(&mut self, origin: Origin, target: Option<u32>) -> (r: Result<u32, Stop>)
        requires
            old(self).valid(),
        ensures
            final(self).valid(),
            final(self).slots@.len() >= old(self).slots@.len(),
            match merging::no_room(old(self)@, target) {
                Some(f) => got_id(r) == merging::Got::<u32>::Fault(f) && *final(self) == *old(
                    self,
                ),
                None => {
                    let slot = match target {
                        Some(t) => t,
                        None => old(self).slots@.len() as u32,
                    };
                    &&& got_id(r) == merging::Got::Value(slot)
                    &&& slot < final(self).slots@.len()
                    &&& final(self)@ == old(self)@.claim(origin@, target)
                },
            },
    {
        match target {
            Some(t) => {
                if t as usize >= self.slots.len() {
                    return Err(Stop::Fault(Fault::NoSlot(t)));
                }
                self.origins.set(t as usize, origin);
                assert(self@ =~= old(self)@.claim(origin@, target));
                Ok(t)
            },
            None => {
                if self.slots.len() >= u32::MAX as usize {
                    return Err(Stop::Fault(Fault::TooMany));
                }
                let slot: u32 = self.slots.len() as u32;
                self.slots.push(CharacterSlot::Empty);
                self.origins.push(origin);
                assert(self@ =~= old(self)@.claim(origin@, target));
                Ok(slot)
            },
        }
    }
}

/// How many characters and how many imports the movies of a library have.
fn totals(lib: &Vec<Source>) -> (t: (u128, u128))
    ensures
        t.0 == merging::characters(model::views(lib@), lib@.len()),
        t.1 == merging::imports(model::views(lib@), lib@.len()),
        t.0 < u128::MAX,
{
    let ghost l = model::views(lib@);
    let mut characters: u128 = 0;
    let mut imports: u128 = 0;
    let mut i: usize = 0;
    assert(0 * usize::MAX == 0);
    while i < lib.len()
        invariant
            l == model::views(lib@),
            i <= lib@.len(),
            characters == merging::characters(l, i as nat),
            imports == merging::imports(l, i as nat),
            characters <= i * usize::MAX,
            imports <= i * usize::MAX,
        decreases lib@.len() - i,
    {
        proof {
            assert(l[i as int] == lib@[i as int]@);
            lemma_room(i);
        }
        if let Some(f) = &lib[i].file {
            let ghost m = f@.movie;
            assert(m.characters.len() == f.movie.characters@.len());
            assert(m.imports.len() == f.movie.imports@.len());
            characters = characters + f.movie.characters.len() as u128;
            imports = imports + f.movie.imports.len() as u128;
        }
        i = i + 1;
    }
    proof {
        if i > 0 {
            lemma_room((i - 1) as usize);
        }
    }
    (characters, imports)
}

/// A sum of sizes fits in twice as many bits.
proof fn lemma_room(i: usize)
    requires
        i < usize::MAX,
    ensures
        (i + 1) * usize::MAX == i * usize::MAX + usize::MAX,
        (i + 1) * usize::MAX < u128::MAX,
{
    let m = usize::MAX as int;
    assert((i + 1) * m == i * m + m) by (nonlinear_arith);
    assert((i + 1) * m <= 0xFFFF_FFFF_FFFF_FFFF * 0xFFFF_FFFF_FFFF_FFFF) by (nonlinear_arith)
        requires
            0 <= i + 1 <= 0xFFFF_FFFF_FFFF_FFFF,
            0 <= m <= 0xFFFF_FFFF_FFFF_FFFF,
    ;
}

spec fn got_origin(r: Result<Origin, Stop>) -> merging::Got<merging::Origin> {
    got(r, (r->Ok_0)@)
}

/// The character that a slot stands for.
fn settle(
    lib: &Vec<Source>,
    st: &Merge,
    base: &str,
    index: u32,
    wanted: bool,
    hops: u128,
) -> (r: Result<Origin, Stop>)
    ensures
        got_origin(r) == merging::settle(
            model::views(lib@),
            st@,
            merging::Origin { base: base@, index },
            wanted,
            hops as nat,
        ),
    decreases hops,
{
    let origin = Origin { base: text::copy_of(base), index };
    if wanted && st.lookup(base, index).is_some() {
        return Ok(origin);
    }
    let movie = match load(lib, base) {
        Ok(m) => m,
        Err(stop) => return Err(stop),
    };
    let ghost m = movie@;
    let empty = if index as usize >= movie.characters.len() {
        true
    } else {
        assert(m.characters[index as int] == movie.characters@[index as int]@);
        match &movie.characters[index as usize] {
            CharacterSlot::Empty => true,
            _ => false,
        }
    };
    if !empty {
        return Ok(origin);
    }
    let import = match import_of(movie, index) {
        Some(i) => i,
        None => return Err(Stop::Fault(Fault::EmptySlot(origin))),
    };
    let next = resolve_movie(base, import.movie.as_str());
    let next_index: u32 = match export_index(lib, next.as_str(), import.name.as_str()) {
        Ok(i) => i,
        Err(stop) => return Err(stop),
    };
    if hops == 0 {
        return Err(Stop::Fault(Fault::Circular));
    }
    settle(lib, st, next.as_str(), next_index, wanted, hops - 1)
}

/// Copies a character of another movie, and whatever it refers to. `hops` is the number
/// of imports of the library, and `depth` suffices for all of its characters.
fn copy(
    lib: &Vec<Source>,
    st: &mut Merge,
    base: &str,
    index: u32,
    target: Option<u32>,
    hops: u128,
    depth: u128,
) -> (r: Result<u32, Stop>)
    requires
        old(st).valid(),
        hops == merging::imports(model::views(lib@), lib@.len()),
        merging::deep_enough(model::views(lib@), old(st)@, target, depth as nat),
    ensures
        final(st).valid(),
        final(st).slots@.len() >= old(st).slots@.len(),
        (got_id(r), final(st)@) == merging::copy(
            model::views(lib@),
            old(st)@,
            merging::Origin { base: base@, index },
            target,
            depth as nat,
        ),
    decreases depth, 0nat,
{
    let ghost l = model::views(lib@);
    let ghost o = merging::Origin { base: base@, index };
    proof {
        assert(l.len() == lib@.len());
        merging::lemma_deep(l, st@, o, target, depth as nat);
    }
    let origin = match settle(lib, st, base, index, target.is_none(), hops) {
        Ok(o) => o,
        Err(stop) => return Err(stop),
    };
    let from = origin.base.as_str();
    if target.is_none() {
        if let Some(merged) = st.lookup(from, origin.index) {
            return Ok(merged);
        }
    }
    let movie = match load(lib, from) {
        Ok(m) => m,
        Err(stop) => return Err(stop),
    };
    let ghost m = movie@;
    assert(m.characters[origin.index as int] == movie.characters@[origin.index as int]@);
    let slot: u32 = match st.claim(origin.duplicate(), target) {
        Ok(i) => i,
        Err(stop) => return Err(stop),
    };
    st.remember(origin.duplicate(), slot);
    match &movie.characters[origin.index as usize] {
        CharacterSlot::Character(c) => {
            let v = refs(c);
            let ids = match copy_all(lib, st, from, &v, hops, depth - 1) {
                Ok(ids) => ids,
                Err(stop) => return Err(stop),
            };
            let copied = put(c, &ids);
            let ghost before = st@;
            st.slots.set(slot as usize, CharacterSlot::Character(copied));
            assert(st@ =~= before.fill(slot, copied@));
            Ok(slot)
        },
        _ => Err(Stop::Fault(Fault::NotACharacter(origin))),
    }
}

/// Copies the characters that are referred to.
fn copy_all(
    lib: &Vec<Source>,
    st: &mut Merge,
    base: &str,
    v: &Vec<u32>,
    hops: u128,
    depth: u128,
) -> (r: Result<Vec<u32>, Stop>)
    requires
        old(st).valid(),
        hops == merging::imports(model::views(lib@), lib@.len()),
        merging::deep_enough(model::views(lib@), old(st)@, None, depth as nat),
    ensures
        final(st).valid(),
        final(st).slots@.len() >= old(st).slots@.len(),
        r matches Ok(ids) ==> ids@.len() == v@.len(),
        (got_ids(r), final(st)@) == merging::copy_all(
            model::views(lib@),
            old(st)@,
            base@,
            v@,
            v@.len(),
            depth as nat,
        ),
    decreases depth, 1nat,
{
    let ghost l = model::views(lib@);
    let ghost first = st@;
    let ghost size = st.slots@.len();
    let mut ids: Vec<u32> = Vec::new();
    let mut i: usize = 0;
    assert(ids@ =~= Seq::<u32>::empty());
    while i < v.len()
        invariant
            l == model::views(lib@),
            i <= v@.len(),
            ids@.len() == i,
            st.valid(),
            st.slots@.len() >= size,
            first == old(st)@,
            size == old(st).slots@.len(),
            hops == merging::imports(l, lib@.len()),
            merging::deep_enough(l, first, None, depth as nat),
            (merging::Got::Value(ids@), st@) == merging::copy_all(
                l,
                first,
                base@,
                v@,
                i as nat,
                depth as nat,
            ),
        decreases v@.len() - i,
    {
        proof {
            merging::lemma_left_all(l, first, base@, v@, i as nat, depth as nat);
        }
        let r = copy(lib, st, base, v[i], None, hops, depth);
        proof {
            let g = merging::copy_all(l, first, base@, v@, (i + 1) as nat, depth as nat);
            assert(g.0 == got(r, ids@.push(r->Ok_0)) && g.1 == st@);
            if r is Err {
                lemma_copy_all_stops(l, first, base@, v@, (i + 1) as nat, v@.len(), depth as nat);
            }
        }
        match r {
            Ok(id) => {
                ids.push(id);
            },
            Err(stop) => return Err(stop),
        }
        i = i + 1;
    }
    Ok(ids)
}

proof fn lemma_copy_all_stops(
    l: Seq<merging::Source>,
    st: merging::State,
    base: Seq<char>,
    v: Seq<u32>,
    a: nat,
    b: nat,
    depth: nat,
)
    requires
        a <= b,
        !(merging::copy_all(l, st, base, v, a, depth).0 is Value),
    ensures
        merging::copy_all(l, st, base, v, b, depth) == merging::copy_all(l, st, base, v, a, depth),
    decreases b,
{
    if a < b {
        lemma_copy_all_stops(l, st, base, v, a, (b - 1) as nat, depth);
    }
}

/// An import that could not be resolved; its slot stays as it is.
pub struct Unresolved {
    pub import: Import,
    pub fault: Fault,
}

impl View for Unresolved {
    type V = merging::Unresolved;

    open spec fn view(&self) -> merging::Unresolved {
        merging::Unresolved { import: self.import@, fault: self.fault@ }
    }
}

/// A movie with its imports inlined, plus the origin of every character.
pub struct Resolved {
    pub file: AptFile,
    /// One entry per character in `file.movie.characters`.
    pub origins: Vec<Origin>,
    /// The imports that could not be resolved.
    pub unresolved: Vec<Unresolved>,
}

/// What resolving the imports of a movie comes to.
pub enum Outcome {
    /// Every import was dealt with.
    Done(Resolved),
    /// The movie at this base path has to be loaded first.
    Need(String),
}

/// Inlines every import in `file` (recursively), taking sibling movies of `base`
/// from `lib`. A movie that is in demand and not in `lib` is asked for. Imports
/// that can't be resolved are left empty and listed: each import into a slot of the
/// movie is inlined there, or its slot stays as it was and the import is listed.
pub fn resolve(base: &str, file: &AptFile, lib: &Vec<Source>) -> (r: Outcome)
    ensures
        ({
            let (g, st) = merging::import_all(
                model::views(lib@),
                base@,
                file@.movie,
                file@.movie.imports.len(),
            );
            match r {
                Outcome::Done(d) => {
                    &&& g == merging::Got::Value(model::views(d.unresolved@))
                    &&& d.file@ == merging::merged(file@, st)
                    &&& model::views(d.origins@) == st.origins
                    &&& d.origins@.len() == d.file@.movie.characters.len()
                    &&& d.file@.movie.imports.len() == 0
                    &&& forall|i: int|
                        0 <= i < file@.movie.imports.len() ==> merging::dealt_with(
                            file@.movie,
                            d.file@.movie,
                            model::views(d.unresolved@),
                            #[trigger] file@.movie.imports[i],
                        )
                },
                Outcome::Need(b) => g == merging::Got::<Seq<merging::Unresolved>>::Need(b@),
            }
        }),
{
    let ghost l = model::views(lib@);
    let ghost m = file@.movie;
    let (characters, hops): (u128, u128) = totals(lib);
    let depth: u128 = characters + 1;
    let mut st = begin(base, &file.movie);
    let mut unresolved: Vec<Unresolved> = Vec::new();
    assert(model::views(unresolved@) =~= Seq::<merging::Unresolved>::empty());
    let mut i: usize = 0;
    while i < file.movie.imports.len()
        invariant
            l == model::views(lib@),
            m == file@.movie,
            l.len() == lib@.len(),
            hops == merging::imports(l, lib@.len()),
            depth == merging::characters(l, lib@.len()) + 1,
            i <= file.movie.imports@.len(),
            st.valid(),
            merging::import_all(l, base@, m, i as nat) == (
                merging::Got::Value(model::views(unresolved@)),
                st@,
            ),
        decreases file.movie.imports@.len() - i,
    {
        let import = &file.movie.imports[i];
        assert(m.imports[i as int] == import@);
        let from = resolve_movie(base, import.movie.as_str());
        let ghost before = st@;
        let ghost bad = model::views(unresolved@);
        proof {
            merging::lemma_left_bound(l, st@);
        }
        let r = match export_index(lib, from.as_str(), import.name.as_str()) {
            Ok(index) => copy(
                lib,
                &mut st,
                from.as_str(),
                index,
                Some(import.character_id),
                hops,
                depth,
            ),
            Err(stop) => Err(stop),
        };
        assert((got_id(r), st@) == merging::import_one(l, before, base@, import@));
        match r {
            Ok(_) => {},
            Err(Stop::Fault(fault)) => {
                let ghost f = fault@;
                unresolved.push(
                    Unresolved {
                        import: Import {
                            movie: import.movie.clone(),
                            name: import.name.clone(),
                            character_id: import.character_id,
                        },
                        fault,
                    },
                );
                assert(model::views(unresolved@) =~= bad.push(
                    merging::Unresolved { import: import@, fault: f },
                ));
            },
            Err(Stop::Need(b)) => {
                proof {
                    lemma_import_all_stops(l, base@, m, (i + 1) as nat, m.imports.len());
                }
                return Outcome::Need(b);
            },
        }
        i = i + 1;
    }
    let movie = Movie {
        frames: copies::frames(&file.movie.frames),
        characters: st.slots,
        width: file.movie.width,
        height: file.movie.height,
        ms_per_frame: file.movie.ms_per_frame,
        imports: Vec::new(),
        exports: copies::exports(&file.movie.exports),
    };
    assert(movie@.imports =~= Seq::empty());
    let merged = AptFile { header: file.header, const_magic: file.const_magic, movie };
    proof {
        let bad = model::views(unresolved@);
        assert(merged@ == merging::merged(file@, st@));
        assert(model::views(st.origins@).len() == st.origins@.len());
        assert(model::views(st.slots@).len() == st.slots@.len());
        assert forall|k: int| 0 <= k < m.imports.len() implies merging::dealt_with(
            m,
            merged@.movie,
            bad,
            #[trigger] m.imports[k],
        ) by {
            if m.imports[k].character_id < m.characters.len() {
                merging::law_imports(l, base@, m, m.imports.len());
                merging::law_every_import(l, base@, m, m.imports.len(), k);
            }
        }
    }
    Outcome::Done(Resolved { file: merged, origins: st.origins, unresolved })
}

proof fn lemma_import_all_stops(
    l: Seq<merging::Source>,
    base: Seq<char>,
    m: model::Movie,
    a: nat,
    b: nat,
)
    requires
        a <= b,
        !(merging::import_all(l, base, m, a).0 is Value),
    ensures
        merging::import_all(l, base, m, b) == merging::import_all(l, base, m, a),
    decreases b,
{
    if a < b {
        lemma_import_all_stops(l, base, m, a, (b - 1) as nat);
    }
}

/// The movie before its imports are resolved.
fn begin(base: &str, movie: &Movie) -> (st: Merge)
    ensures
        st.valid(),
        st@ == merging::start(base@, movie@),
{
    let slots = copies::slots(&movie.characters);
    let mut origins: Vec<Origin> = Vec::new();
    let mut memo: Vec<Entry> = Vec::new();
    let ghost s = merging::start(base@, movie@);
    assert(model::views(slots@).len() == slots@.len());
    assert(model::views(movie.characters@).len() == movie.characters@.len());
    let mut i: usize = 0;
    while i < slots.len()
        invariant
            s == merging::start(base@, movie@),
            s.slots.len() == slots@.len(),
            i <= slots@.len(),
            origins@.len() == i,
            memo@.len() == i,
            forall|k: int| 0 <= k < i ==> (#[trigger] origins@[k])@ == s.origins[k],
            forall|k: int| 0 <= k < i ==> (#[trigger] memo@[k])@ == s.memo[k],
        decreases slots@.len() - i,
    {
        origins.push(Origin { base: text::copy_of(base), index: i as u32 });
        memo.push(
            Entry { origin: Origin { base: text::copy_of(base), index: i as u32 }, merged: i as u32 },
        );
        i = i + 1;
    }
    let st = Merge { slots, origins, memo };
    assert(st@ =~= s);
    st
}

} // verus!
