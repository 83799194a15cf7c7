//! What inlining imports gives.
//!
//! An APT movie can leave character slots empty and declare an import for them;
//! the engine fills those slots at load time from the other movie's export table.
use crate::apt::model::{
    AptFile, Button, ButtonRecord, Character, CharacterSlot, Control, Font, Frame, Import, Movie,
    PlaceObject, StaticText, StaticTextRecord, Text,
};
use crate::apt::types::{ButtonSounds, Morph};
use crate::paths::folder;
use vstd::prelude::*;

verus! {

/// Where the last part of an import name starts: behind the last separator of
/// either kind.
pub open spec fn import_start(s: Seq<char>) -> int
    decreases s.len(),
{
    if s.len() == 0 || s[s.len() - 1] == '/' || s[s.len() - 1] == '\\' {
        s.len() as int
    } else {
        import_start(s.take(s.len() - 1))
    }
}

/// The base path of the movie that the movie at `from` imports under a name: the
/// last part of the name, next to the importing movie.
pub open spec fn movie_path(from: Seq<char>, movie: Seq<char>) -> Seq<char> {
    folder(from) + movie.skip(import_start(movie))
}

/// A character of a movie.
#[verifier::ext_equal]
pub struct Origin {
    pub base: Seq<char>,
    pub index: u32,
}

/// Why an import cannot be resolved.
pub enum Fault {
    /// The movie cannot be loaded.
    Unloadable(Seq<char>),
    /// The movie has no such export.
    NoExport(Seq<char>),
    /// The character is empty and not imported.
    EmptySlot(Origin),
    /// The slot holds no character.
    NotACharacter(Origin),
    /// The movie that imports has no such slot.
    NoSlot(u32),
    /// More imports lead on from one another than there are: they go round in a circle.
    Circular,
    /// There are more characters than indices.
    TooMany,
}

/// A movie that was asked for: what loading it gave.
pub struct Source {
    pub base: Seq<char>,
    pub file: Option<AptFile>,
}

impl Source {
    pub open spec fn movie(self) -> Option<Movie> {
        match self.file {
            Some(f) => Some(f.movie),
            None => None,
        }
    }
}

/// The movie at a base path among those from the `i`-th on, where it was asked for.
pub open spec fn source(lib: Seq<Source>, base: Seq<char>, i: int) -> Option<Option<Movie>>
    decreases lib.len() - i,
{
    if i >= lib.len() {
        None
    } else if lib[i].base == base {
        Some(lib[i].movie())
    } else {
        source(lib, base, i + 1)
    }
}

/// How many characters the first `n` movies have.
pub open spec fn characters(lib: Seq<Source>, n: nat) -> nat
    decreases n,
{
    if n == 0 {
        0
    } else {
        characters(lib, (n - 1) as nat) + match lib[n - 1].movie() {
            Some(m) => m.characters.len(),
            None => 0,
        }
    }
}

/// How many imports the first `n` movies have.
pub open spec fn imports(lib: Seq<Source>, n: nat) -> nat
    decreases n,
{
    if n == 0 {
        0
    } else {
        imports(lib, (n - 1) as nat) + match lib[n - 1].movie() {
            Some(m) => m.imports.len(),
            None => 0,
        }
    }
}

/// What a step gives: a value, a fault, or the movie that is needed first.
pub enum Got<T> {
    Value(T),
    Fault(Fault),
    Need(Seq<char>),
}

/// The movie at a base path.
pub open spec fn load(lib: Seq<Source>, base: Seq<char>) -> Got<Movie> {
    match source(lib, base, 0) {
        None => Got::Need(base),
        Some(None) => Got::Fault(Fault::Unloadable(base)),
        Some(Some(m)) => Got::Value(m),
    }
}

/// The character that a movie exports under a name, among the exports from the
/// `i`-th on.
pub open spec fn export_of(m: Movie, name: Seq<char>, i: int) -> Option<u32>
    decreases m.exports.len() - i,
{
    if i >= m.exports.len() {
        None
    } else if m.exports[i].name == name {
        Some(m.exports[i].character_id)
    } else {
        export_of(m, name, i + 1)
    }
}

/// The import for a slot, among the imports from the `i`-th on.
pub open spec fn import_of(m: Movie, index: u32, i: int) -> Option<Import>
    decreases m.imports.len() - i,
{
    if i >= m.imports.len() {
        None
    } else if m.imports[i].character_id == index {
        Some(m.imports[i])
    } else {
        import_of(m, index, i + 1)
    }
}

/// The character that a movie exports under a name.
pub open spec fn export_index(lib: Seq<Source>, base: Seq<char>, name: Seq<char>) -> Got<u32> {
    match load(lib, base) {
        Got::Value(m) => match export_of(m, name, 0) {
            Some(i) => Got::Value(i),
            None => Got::Fault(Fault::NoExport(name)),
        },
        Got::Fault(f) => Got::Fault(f),
        Got::Need(b) => Got::Need(b),
    }
}

/// The character that a control refers to.
pub open spec fn control_ref(c: Control) -> Option<u32> {
    match c {
        Control::PlaceObject(p) => match p.character_id {
            Some(id) => if id >= 0 {
                Some(id as u32)
            } else {
                None
            },
            None => None,
        },
        Control::InitAction { sprite_id, .. } => if sprite_id >= 0 {
            Some(sprite_id as u32)
        } else {
            None
        },
        _ => None,
    }
}

/// A control that refers to another character.
pub open spec fn control_put(c: Control, id: u32) -> Control {
    match c {
        Control::PlaceObject(p) => Control::PlaceObject(
            PlaceObject { character_id: Some(id as i32), ..p },
        ),
        Control::InitAction { actions, .. } => Control::InitAction {
            sprite_id: id as i32,
            actions,
        },
        _ => c,
    }
}

/// A reference, where there is one.
pub open spec fn listed(r: Option<u32>) -> Seq<u32> {
    match r {
        Some(id) => seq![id],
        None => Seq::empty(),
    }
}

/// The references of the first `n` controls.
pub open spec fn controls_refs(v: Seq<Control>, n: nat) -> Seq<u32>
    decreases n,
{
    if n == 0 {
        Seq::empty()
    } else {
        controls_refs(v, (n - 1) as nat) + listed(control_ref(v[n - 1]))
    }
}

/// The controls with other references: those from the `at`-th on.
pub open spec fn controls_put(v: Seq<Control>, ids: Seq<u32>, at: int) -> Seq<Control> {
    Seq::new(
        v.len(),
        |i: int|
            if control_ref(v[i]) is Some {
                control_put(v[i], ids[at + controls_refs(v, i as nat).len()])
            } else {
                v[i]
            },
    )
}

/// The references of the first `n` frames.
pub open spec fn frames_refs(v: Seq<Frame>, n: nat) -> Seq<u32>
    decreases n,
{
    if n == 0 {
        Seq::empty()
    } else {
        frames_refs(v, (n - 1) as nat) + controls_refs(v[n - 1].controls, v[n - 1].controls.len())
    }
}

pub open spec fn frames_put(v: Seq<Frame>, ids: Seq<u32>) -> Seq<Frame> {
    Seq::new(
        v.len(),
        |i: int|
            Frame { controls: controls_put(v[i].controls, ids, frames_refs(v, i as nat).len() as int) },
    )
}

pub open spec fn records_refs(v: Seq<ButtonRecord>) -> Seq<u32> {
    Seq::new(v.len(), |i: int| v[i].character_id)
}

pub open spec fn records_put(v: Seq<ButtonRecord>, ids: Seq<u32>) -> Seq<ButtonRecord> {
    Seq::new(v.len(), |i: int| ButtonRecord { character_id: ids[i], ..v[i] })
}

/// A sound; 0 is none.
pub open spec fn sound_ref(id: u32) -> Seq<u32> {
    if id == 0 {
        Seq::empty()
    } else {
        seq![id]
    }
}

pub open spec fn sounds_refs(s: ButtonSounds) -> Seq<u32> {
    sound_ref(s.over_up_to_idle) + sound_ref(s.idle_to_over_up) + sound_ref(s.over_up_to_over_down)
        + sound_ref(s.over_down_to_over_up)
}

pub open spec fn sound_put(id: u32, ids: Seq<u32>, at: int) -> u32 {
    if id == 0 {
        0
    } else {
        ids[at]
    }
}

pub open spec fn sounds_put(s: ButtonSounds, ids: Seq<u32>, at: int) -> ButtonSounds {
    let a = at + sound_ref(s.over_up_to_idle).len();
    let b = a + sound_ref(s.idle_to_over_up).len();
    let c = b + sound_ref(s.over_up_to_over_down).len();
    ButtonSounds {
        over_up_to_idle: sound_put(s.over_up_to_idle, ids, at),
        idle_to_over_up: sound_put(s.idle_to_over_up, ids, a),
        over_up_to_over_down: sound_put(s.over_up_to_over_down, ids, b),
        over_down_to_over_up: sound_put(s.over_down_to_over_up, ids, c),
    }
}

/// A font; negative ones are none.
pub open spec fn font_ref(id: i32) -> Option<u32> {
    if id >= 0 {
        Some(id as u32)
    } else {
        None
    }
}

pub open spec fn font_put(id: i32, ids: Seq<u32>, at: int) -> i32 {
    if id >= 0 {
        ids[at] as i32
    } else {
        id
    }
}

/// The fonts of the first `n` records.
pub open spec fn texts_refs(v: Seq<StaticTextRecord>, n: nat) -> Seq<u32>
    decreases n,
{
    if n == 0 {
        Seq::empty()
    } else {
        texts_refs(v, (n - 1) as nat) + listed(font_ref(v[n - 1].font_id))
    }
}

pub open spec fn texts_put(v: Seq<StaticTextRecord>, ids: Seq<u32>) -> Seq<StaticTextRecord> {
    Seq::new(
        v.len(),
        |i: int|
            StaticTextRecord {
                font_id: font_put(v[i].font_id, ids, texts_refs(v, i as nat).len() as int),
                ..v[i]
            },
    )
}

/// The characters that a character refers to, in order.
pub open spec fn refs(c: Character) -> Seq<u32> {
    match c {
        Character::Sprite(frames) => frames_refs(frames, frames.len()),
        Character::Button(b) => records_refs(b.records) + match b.sounds {
            Some(s) => sounds_refs(s),
            None => Seq::empty(),
        },
        Character::Font(f) => f.glyphs,
        Character::Morph(m) => seq![m.start_character_id, m.end_character_id],
        Character::Text(t) => listed(font_ref(t.font_id)),
        Character::StaticText(t) => texts_refs(t.records, t.records.len()),
        _ => Seq::empty(),
    }
}

/// A character that refers to other characters.
pub open spec fn put(c: Character, ids: Seq<u32>) -> Character {
    match c {
        Character::Sprite(frames) => Character::Sprite(frames_put(frames, ids)),
        Character::Button(b) => Character::Button(
            Button {
                records: records_put(b.records, ids),
                sounds: match b.sounds {
                    Some(s) => Some(sounds_put(s, ids, b.records.len() as int)),
                    None => None,
                },
                ..b
            },
        ),
        Character::Font(f) => Character::Font(Font { glyphs: ids, ..f }),
        Character::Morph(_) => Character::Morph(
            Morph { start_character_id: ids[0], end_character_id: ids[1] },
        ),
        Character::Text(t) => Character::Text(Text { font_id: font_put(t.font_id, ids, 0), ..t }),
        Character::StaticText(t) => Character::StaticText(
            StaticText { records: texts_put(t.records, ids), ..t },
        ),
        _ => c,
    }
}

/// A movie being merged: its characters, where each comes from, and where the
/// characters of other movies went.
#[verifier::ext_equal]
pub struct State {
    pub slots: Seq<CharacterSlot>,
    pub origins: Seq<Origin>,
    pub memo: Seq<(Origin, u32)>,
}

/// Where a character went, among the entries from the `i`-th on.
pub open spec fn lookup(memo: Seq<(Origin, u32)>, o: Origin, i: int) -> Option<u32>
    decreases memo.len() - i,
{
    if i >= memo.len() {
        None
    } else if memo[i].0 == o {
        Some(memo[i].1)
    } else {
        lookup(memo, o, i + 1)
    }
}

impl State {
    pub open spec fn remember(self, o: Origin, merged: u32) -> State {
        State { memo: self.memo.push((o, merged)), ..self }
    }

    /// Room for a copy: the slot that is asked for, or a new one.
    pub open spec fn claim(self, o: Origin, target: Option<u32>) -> State {
        match target {
            Some(t) => State { origins: self.origins.update(t as int, o), ..self },
            None => State {
                slots: self.slots.push(CharacterSlot::Empty),
                origins: self.origins.push(o),
                ..self
            },
        }
    }

    pub open spec fn fill(self, slot: u32, c: Character) -> State {
        State { slots: self.slots.update(slot as int, CharacterSlot::Character(c)), ..self }
    }
}

/// Why there is no room for a copy.
pub open spec fn no_room(st: State, target: Option<u32>) -> Option<Fault> {
    match target {
        Some(t) => if t >= st.slots.len() {
            Some(Fault::NoSlot(t))
        } else {
            None
        },
        None => if st.slots.len() >= u32::MAX {
            Some(Fault::TooMany)
        } else {
            None
        },
    }
}

/// Whether a slot of a movie is empty.
pub open spec fn is_empty(m: Movie, index: u32) -> bool {
    index >= m.characters.len() || m.characters[index as int] is Empty
}

/// The character that a slot stands for. An empty slot is itself an import and is
/// followed, at most `hops` times, up to a character that was copied before where those
/// are `wanted`.
pub open spec fn settle(lib: Seq<Source>, st: State, o: Origin, wanted: bool, hops: nat) -> Got<Origin>
    decreases hops,
{
    if wanted && lookup(st.memo, o, 0) is Some {
        Got::Value(o)
    } else {
        match load(lib, o.base) {
            Got::Need(b) => Got::Need(b),
            Got::Fault(f) => Got::Fault(f),
            Got::Value(m) => if is_empty(m, o.index) {
                match import_of(m, o.index, 0) {
                    None => Got::Fault(Fault::EmptySlot(o)),
                    Some(i) => {
                        let next = movie_path(o.base, i.movie);
                        match export_index(lib, next, i.name) {
                            Got::Need(b) => Got::Need(b),
                            Got::Fault(f) => Got::Fault(f),
                            Got::Value(index) => if hops == 0 {
                                Got::Fault(Fault::Circular)
                            } else {
                                settle(
                                    lib,
                                    st,
                                    Origin { base: next, index },
                                    wanted,
                                    (hops - 1) as nat,
                                )
                            },
                        }
                    },
                }
            } else {
                Got::Value(o)
            },
        }
    }
}

/// Copies a character of another movie, and whatever it refers to. A character that was
/// copied before is not copied again for a reference; a slot that is asked for gets a
/// copy of its own. References are followed `depth` deep.
pub open spec fn copy(
    lib: Seq<Source>,
    st: State,
    o: Origin,
    target: Option<u32>,
    depth: nat,
) -> (Got<u32>, State)
    decreases depth, 0nat,
{
    match settle(lib, st, o, target is None, imports(lib, lib.len())) {
        Got::Need(b) => (Got::Need(b), st),
        Got::Fault(f) => (Got::Fault(f), st),
        Got::Value(c) => if target is None && lookup(st.memo, c, 0) is Some {
            (Got::Value(lookup(st.memo, c, 0)->0), st)
        } else if no_room(st, target) is Some {
            (Got::Fault(no_room(st, target)->0), st)
        } else {
            let slot = match target {
                Some(t) => t,
                None => st.slots.len() as u32,
            };
            // The slot is reserved first, so reference cycles end.
            let claimed = st.claim(c, target).remember(c, slot);
            match load(lib, c.base)->Value_0.characters[c.index as int] {
                CharacterSlot::Character(x) => if depth == 0 {
                    (Got::Fault(Fault::NotACharacter(c)), claimed)
                } else {
                    let (g, after) = copy_all(
                        lib,
                        claimed,
                        c.base,
                        refs(x),
                        refs(x).len(),
                        (depth - 1) as nat,
                    );
                    match g {
                        Got::Value(ids) => (Got::Value(slot), after.fill(slot, put(x, ids))),
                        Got::Fault(f) => (Got::Fault(f), after),
                        Got::Need(b) => (Got::Need(b), after),
                    }
                },
                _ => (Got::Fault(Fault::NotACharacter(c)), claimed),
            }
        },
    }
}

/// Copies the first `n` of the characters that are referred to.
pub open spec fn copy_all(
    lib: Seq<Source>,
    st: State,
    base: Seq<char>,
    v: Seq<u32>,
    n: nat,
    depth: nat,
) -> (Got<Seq<u32>>, State)
    decreases depth, n + 1,
{
    if n == 0 {
        (Got::Value(Seq::empty()), st)
    } else {
        let (g, before) = copy_all(lib, st, base, v, (n - 1) as nat, depth);
        match g {
            Got::Value(ids) => {
                let (h, after) = copy(lib, before, Origin { base, index: v[n - 1] }, None, depth);
                match h {
                    Got::Value(id) => (Got::Value(ids.push(id)), after),
                    Got::Fault(f) => (Got::Fault(f), after),
                    Got::Need(b) => (Got::Need(b), after),
                }
            },
            _ => (g, before),
        }
    }
}

/// The movie before its imports are resolved: every character is its own origin.
pub open spec fn start(base: Seq<char>, m: Movie) -> State {
    State {
        slots: m.characters,
        origins: Seq::new(m.characters.len(), |i: int| Origin { base, index: i as u32 }),
        memo: Seq::new(m.characters.len(), |i: int| (Origin { base, index: i as u32 }, i as u32)),
    }
}

/// An import that could not be resolved.
pub struct Unresolved {
    pub import: Import,
    pub fault: Fault,
}

/// Fills a slot with what another movie exports.
pub open spec fn import_one(lib: Seq<Source>, st: State, base: Seq<char>, i: Import) -> (
    Got<u32>,
    State,
) {
    let from = movie_path(base, i.movie);
    match export_index(lib, from, i.name) {
        Got::Value(index) => copy(
            lib,
            st,
            Origin { base: from, index },
            Some(i.character_id),
            characters(lib, lib.len()) + 1,
        ),
        Got::Fault(f) => (Got::Fault(f), st),
        Got::Need(b) => (Got::Need(b), st),
    }
}

/// What the first `n` imports give: those that could not be resolved, or the movie
/// that is needed first.
pub open spec fn import_all(
    lib: Seq<Source>,
    base: Seq<char>,
    m: Movie,
    n: nat,
) -> (Got<Seq<Unresolved>>, State)
    decreases n,
{
    if n == 0 {
        (Got::Value(Seq::empty()), start(base, m))
    } else {
        let (g, before) = import_all(lib, base, m, (n - 1) as nat);
        match g {
            Got::Value(bad) => {
                let (h, after) = import_one(lib, before, base, m.imports[n - 1]);
                match h {
                    Got::Value(_) => (g, after),
                    Got::Fault(fault) => (
                        Got::Value(bad.push(Unresolved { import: m.imports[n - 1], fault })),
                        after,
                    ),
                    Got::Need(b) => (Got::Need(b), after),
                }
            },
            _ => (g, before),
        }
    }
}

/// A movie with these characters that imports nothing.
pub open spec fn merged(f: AptFile, st: State) -> AptFile {
    AptFile {
        movie: Movie { characters: st.slots, imports: Seq::empty(), ..f.movie },
        ..f
    }
}

impl State {
    /// Every character has an origin, and every copy is where it was noted.
    pub open spec fn valid(self) -> bool {
        &&& self.origins.len() == self.slots.len()
        &&& forall|i: int| 0 <= i < self.memo.len() ==> (#[trigger] self.memo[i]).1 < self.slots.len()
    }

    /// What was there before is still there, but for one slot.
    pub open spec fn extends(self, before: State, target: Option<u32>) -> bool {
        &&& self.slots.len() >= before.slots.len()
        &&& forall|k: int|
            0 <= k < before.slots.len() && !(target matches Some(t) && t == k) ==> #[trigger] self.slots[k]
                == before.slots[k]
        &&& forall|k: int|
            0 <= k < before.slots.len() && !(target matches Some(t) && t == k)
                ==> #[trigger] self.origins[k] == before.origins[k]
    }
}

proof fn lemma_lookup(st: State, o: Origin, i: int)
    requires
        st.valid(),
        0 <= i,
    ensures
        lookup(st.memo, o, i) matches Some(m) ==> m < st.slots.len(),
    decreases st.memo.len() - i,
{
    if i < st.memo.len() {
        lemma_lookup(st, o, i + 1);
    }
}

/// A copied character is in the merged movie, in the slot that was asked for, or else
/// in a new one or where it was copied before. No other slot is touched, a slot that was
/// asked for in vain stays as it was, and every character keeps an origin.
pub proof fn law_copy(lib: Seq<Source>, st: State, o: Origin, target: Option<u32>, depth: nat)
    requires
        st.valid(),
    ensures
        copy(lib, st, o, target, depth).1.valid(),
        copy(lib, st, o, target, depth).1.extends(st, target),
        copy(lib, st, o, target, depth).0 matches Got::Value(id) ==> id < copy(
            lib,
            st,
            o,
            target,
            depth,
        ).1.slots.len(),
        target matches Some(t) ==> match copy(lib, st, o, target, depth).0 {
            Got::Value(id) => id == t && copy(lib, st, o, target, depth).1.slots[t as int] is Character,
            _ => t < st.slots.len() ==> copy(lib, st, o, target, depth).1.slots[t as int]
                == st.slots[t as int],
        },
    decreases depth, 0nat,
{
    let g = settle(lib, st, o, target is None, imports(lib, lib.len()));
    if g is Value {
        let c = g->Value_0;
        lemma_lookup(st, c, 0);
        if !(target is None && lookup(st.memo, c, 0) is Some) && no_room(st, target) is None {
            let slot = match target {
                Some(t) => t,
                None => st.slots.len() as u32,
            };
            let claimed = st.claim(c, target).remember(c, slot);
            assert(claimed.valid());
            let m = load(lib, c.base)->Value_0;
            if m.characters[c.index as int] is Character && depth > 0 {
                let x = m.characters[c.index as int]->Character_0;
                law_copy_all(lib, claimed, c.base, refs(x), refs(x).len(), (depth - 1) as nat);
            }
        }
    }
}

/// Copies of the characters that are referred to are in the merged movie, in new
/// slots or where they were copied before; no slot that was there is touched.
pub proof fn law_copy_all(
    lib: Seq<Source>,
    st: State,
    base: Seq<char>,
    v: Seq<u32>,
    n: nat,
    depth: nat,
)
    requires
        st.valid(),
    ensures
        copy_all(lib, st, base, v, n, depth).1.valid(),
        copy_all(lib, st, base, v, n, depth).1.extends(st, None),
        copy_all(lib, st, base, v, n, depth).0 matches Got::Value(ids) ==> ids.len() == n
            && forall|i: int|
            0 <= i < n ==> #[trigger] ids[i] < copy_all(lib, st, base, v, n, depth).1.slots.len(),
    decreases depth, n + 1,
{
    if n > 0 {
        law_copy_all(lib, st, base, v, (n - 1) as nat, depth);
        let (g, before) = copy_all(lib, st, base, v, (n - 1) as nat, depth);
        if g is Value {
            law_copy(lib, before, Origin { base, index: v[n - 1] }, None, depth);
        }
    }
}

/// Resolving imports gives every character an origin, and changes no slot of the
/// movie but those that it imports into: those characters stay, and stay their own
/// origins. Nothing is removed.
pub proof fn law_imports(lib: Seq<Source>, base: Seq<char>, m: Movie, n: nat)
    requires
        n <= m.imports.len(),
    ensures
        ({
            let st = import_all(lib, base, m, n).1;
            &&& st.valid()
            &&& st.slots.len() >= m.characters.len()
            &&& forall|k: int|
                0 <= k < m.characters.len() && (forall|i: int|
                    0 <= i < n ==> (#[trigger] m.imports[i]).character_id != k)
                    ==> #[trigger] st.slots[k] == m.characters[k] && st.origins[k] == (Origin {
                    base,
                    index: k as u32,
                })
        }),
    decreases n,
{
    if n > 0 {
        law_imports(lib, base, m, (n - 1) as nat);
        let (g, before) = import_all(lib, base, m, (n - 1) as nat);
        if g is Value {
            let i = m.imports[n - 1];
            let from = movie_path(base, i.movie);
            if export_index(lib, from, i.name) is Value {
                law_copy(
                    lib,
                    before,
                    Origin { base: from, index: export_index(lib, from, i.name)->Value_0 },
                    Some(i.character_id),
                    characters(lib, lib.len()) + 1,
                );
            }
            let st = import_all(lib, base, m, n).1;
            assert(st.extends(before, Some(i.character_id)));
            assert forall|k: int|
                0 <= k < m.characters.len() && (forall|i: int|
                    0 <= i < n ==> (#[trigger] m.imports[i]).character_id
                        != k) implies #[trigger] st.slots[k] == m.characters[k] && st.origins[k] == (
            Origin { base, index: k as u32 }) by {
                assert(m.imports[n - 1].character_id != k);
                assert(before.slots[k] == m.characters[k]);
            }
        }
    }
}

/// Whether an import is among those that could not be resolved.
pub open spec fn is_listed(bad: Seq<Unresolved>, i: Import) -> bool {
    exists|k: int| 0 <= k < bad.len() && (#[trigger] bad[k]).import == i
}

/// Whether an import into a slot of a movie is inlined in the resolved movie, or left as
/// it was and listed.
pub open spec fn dealt_with(m: Movie, resolved: Movie, bad: Seq<Unresolved>, i: Import) -> bool {
    let slot = i.character_id as int;
    slot < m.characters.len() ==> slot < resolved.characters.len() && (
    resolved.characters[slot] is Character || resolved.characters[slot] == m.characters[slot]
        && is_listed(bad, i))
}

/// Every import into a slot of the movie is either inlined, and its slot holds a
/// character, or listed as unresolved; a slot that no import fills stays as it was.
pub proof fn law_every_import(lib: Seq<Source>, base: Seq<char>, m: Movie, n: nat, k: int)
    requires
        n <= m.imports.len(),
        import_all(lib, base, m, n).0 is Value,
        0 <= k < n,
        m.imports[k].character_id < m.characters.len(),
    ensures
        ({
            let (g, st) = import_all(lib, base, m, n);
            let slot = m.imports[k].character_id as int;
            ||| st.slots[slot] is Character
            ||| st.slots[slot] == m.characters[slot] && is_listed(g->Value_0, m.imports[k])
        }),
    decreases n,
{
    let (g, before) = import_all(lib, base, m, (n - 1) as nat);
    let (all, st) = import_all(lib, base, m, n);
    let last = m.imports[n - 1];
    let slot = m.imports[k].character_id as int;
    let from = movie_path(base, last.movie);
    law_imports(lib, base, m, (n - 1) as nat);
    if export_index(lib, from, last.name) is Value {
        law_copy(
            lib,
            before,
            Origin { base: from, index: export_index(lib, from, last.name)->Value_0 },
            Some(last.character_id),
            characters(lib, lib.len()) + 1,
        );
    }
    assert(st.extends(before, Some(last.character_id)));
    lemma_unfilled(lib, base, m, (n - 1) as nat, slot);
    let bad = g->Value_0;
    if k < n - 1 {
        law_every_import(lib, base, m, (n - 1) as nat, k);
        if is_listed(bad, m.imports[k]) {
            let w = choose|w: int| 0 <= w < bad.len() && (#[trigger] bad[w]).import == m.imports[k];
            assert((all->Value_0)[w].import == m.imports[k]);
        }
    } else if all->Value_0 != bad {
        assert((all->Value_0)[bad.len() as int].import == last);
    }
}

/// A slot that holds no character after some imports is as it was.
proof fn lemma_unfilled(lib: Seq<Source>, base: Seq<char>, m: Movie, n: nat, slot: int)
    requires
        n <= m.imports.len(),
        0 <= slot < m.characters.len(),
    ensures
        ({
            let st = import_all(lib, base, m, n).1;
            st.slots[slot] is Character || st.slots[slot] == m.characters[slot]
        }),
    decreases n,
{
    if n > 0 {
        lemma_unfilled(lib, base, m, (n - 1) as nat, slot);
        law_imports(lib, base, m, (n - 1) as nat);
        let (g, before) = import_all(lib, base, m, (n - 1) as nat);
        if g is Value {
            let last = m.imports[n - 1];
            let from = movie_path(base, last.movie);
            if export_index(lib, from, last.name) is Value {
                law_copy(
                    lib,
                    before,
                    Origin { base: from, index: export_index(lib, from, last.name)->Value_0 },
                    Some(last.character_id),
                    characters(lib, lib.len()) + 1,
                );
            }
        }
    }
}

/// How many of the first `n` characters of a movie were not copied yet.
pub open spec fn fresh_in(base: Seq<char>, n: nat, memo: Seq<(Origin, u32)>) -> nat
    decreases n,
{
    if n == 0 {
        0
    } else {
        let rest = fresh_in(base, (n - 1) as nat, memo);
        if lookup(memo, Origin { base, index: (n - 1) as u32 }, 0) is None {
            rest + 1
        } else {
            rest
        }
    }
}

/// How many characters of a movie an index can name.
pub open spec fn span(m: Movie) -> nat {
    if m.characters.len() > u32::MAX {
        (u32::MAX + 1) as nat
    } else {
        m.characters.len()
    }
}

/// How many characters of the first `n` movies were not copied yet.
pub open spec fn fresh(lib: Seq<Source>, memo: Seq<(Origin, u32)>, n: nat) -> nat
    decreases n,
{
    if n == 0 {
        0
    } else {
        fresh(lib, memo, (n - 1) as nat) + match lib[n - 1].movie() {
            Some(m) => fresh_in(lib[n - 1].base, span(m), memo),
            None => 0,
        }
    }
}

/// What was remembered stays, and what is new is found.
proof fn lemma_lookup_push(memo: Seq<(Origin, u32)>, x: (Origin, u32), o: Origin, i: int)
    requires
        0 <= i <= memo.len(),
    ensures
        lookup(memo, o, i) is Some ==> lookup(memo.push(x), o, i) == lookup(memo, o, i),
        lookup(memo.push(x), x.0, i) is Some,
    decreases memo.len() - i,
{
    if i < memo.len() {
        lemma_lookup_push(memo, x, o, i + 1);
    }
}

proof fn lemma_fresh_in(base: Seq<char>, n: nat, memo: Seq<(Origin, u32)>, x: (Origin, u32))
    ensures
        fresh_in(base, n, memo.push(x)) <= fresh_in(base, n, memo) <= n,
        n <= u32::MAX + 1 && x.0.base == base && x.0.index < n && lookup(memo, x.0, 0) is None
            ==> fresh_in(base, n, memo.push(x)) < fresh_in(base, n, memo),
    decreases n,
{
    if n > 0 {
        lemma_fresh_in(base, (n - 1) as nat, memo, x);
        lemma_lookup_push(memo, x, Origin { base, index: (n - 1) as u32 }, 0);
    }
}

/// Of a character that is remembered there is one less, where it is in the library.
proof fn lemma_fresh(lib: Seq<Source>, memo: Seq<(Origin, u32)>, x: (Origin, u32), n: nat, s: int)
    requires
        n <= lib.len(),
    ensures
        fresh(lib, memo.push(x), n) <= fresh(lib, memo, n) <= characters(lib, n),
        0 <= s < n && lib[s].base == x.0.base && lookup(memo, x.0, 0) is None && (
        lib[s].movie() matches Some(m) && x.0.index < m.characters.len())
            ==> fresh(lib, memo.push(x), n) < fresh(lib, memo, n),
    decreases n,
{
    if n > 0 {
        lemma_fresh(lib, memo, x, (n - 1) as nat, s);
        match lib[n - 1].movie() {
            Some(m) => {
                lemma_fresh_in(lib[n - 1].base, span(m), memo, x);
            },
            None => {},
        }
    }
}

/// A movie that is loaded is one of the library.
proof fn lemma_source(lib: Seq<Source>, base: Seq<char>, i: int) -> (s: int)
    requires
        0 <= i <= lib.len(),
        source(lib, base, i) is Some,
    ensures
        0 <= s < lib.len(),
        lib[s].base == base,
        source(lib, base, i) == Some(lib[s].movie()),
    decreases lib.len() - i,
{
    if lib[i].base == base {
        i
    } else {
        lemma_source(lib, base, i + 1)
    }
}

/// Where a slot leads: to a character that was copied before, or to one that is there.
proof fn lemma_settled(lib: Seq<Source>, st: State, o: Origin, wanted: bool, hops: nat)
    ensures
        settle(lib, st, o, wanted, hops) matches Got::Value(c) ==> (wanted && lookup(st.memo, c, 0)
            is Some) || (load(lib, c.base) matches Got::Value(m) && !is_empty(m, c.index)),
    decreases hops,
{
    if !(wanted && lookup(st.memo, o, 0) is Some) && load(lib, o.base) is Value && hops > 0 {
        let m = load(lib, o.base)->Value_0;
        if is_empty(m, o.index) && import_of(m, o.index, 0) is Some {
            let i = import_of(m, o.index, 0)->0;
            let next = movie_path(o.base, i.movie);
            if export_index(lib, next, i.name) is Value {
                let index = export_index(lib, next, i.name)->Value_0;
                lemma_settled(lib, st, Origin { base: next, index }, wanted, (hops - 1) as nat);
            }
        }
    }
}

/// How many characters of a library were not copied yet.
pub open spec fn left(lib: Seq<Source>, st: State) -> nat {
    fresh(lib, st.memo, lib.len())
}

/// There are no more characters left to copy than there are.
pub proof fn lemma_left_bound(lib: Seq<Source>, st: State)
    ensures
        left(lib, st) <= characters(lib, lib.len()),
{
    let x = (Origin { base: Seq::empty(), index: 0 }, 0u32);
    lemma_fresh(lib, st.memo, x, lib.len(), 0);
}

/// Reserving a slot for a character that is there leaves one less to copy, unless it was
/// copied before.
pub proof fn lemma_claimed(lib: Seq<Source>, st: State, c: Origin, target: Option<u32>, slot: u32)
    ensures
        left(lib, st.claim(c, target).remember(c, slot)) <= left(lib, st) <= characters(
            lib,
            lib.len(),
        ),
        lookup(st.memo, c, 0) is None && (load(lib, c.base) matches Got::Value(m) && !is_empty(
            m,
            c.index,
        )) ==> left(lib, st.claim(c, target).remember(c, slot)) < left(lib, st),
{
    let x = (c, slot);
    assert(st.claim(c, target).remember(c, slot).memo == st.memo.push(x));
    if load(lib, c.base) is Value {
        let s = lemma_source(lib, c.base, 0);
        lemma_fresh(lib, st.memo, x, lib.len(), s);
    } else {
        lemma_fresh(lib, st.memo, x, lib.len(), 0);
    }
}

/// Copying leaves no more to copy than there was.
pub proof fn lemma_left(lib: Seq<Source>, st: State, o: Origin, target: Option<u32>, depth: nat)
    ensures
        left(lib, copy(lib, st, o, target, depth).1) <= left(lib, st),
    decreases depth, 0nat,
{
    let g = settle(lib, st, o, target is None, imports(lib, lib.len()));
    if g is Value {
        let c = g->Value_0;
        let slot = match target {
            Some(t) => t,
            None => st.slots.len() as u32,
        };
        let claimed = st.claim(c, target).remember(c, slot);
        lemma_claimed(lib, st, c, target, slot);
        let m = load(lib, c.base)->Value_0;
        if m.characters[c.index as int] is Character && depth > 0 {
            let x = m.characters[c.index as int]->Character_0;
            lemma_left_all(lib, claimed, c.base, refs(x), refs(x).len(), (depth - 1) as nat);
        }
    }
}

pub proof fn lemma_left_all(
    lib: Seq<Source>,
    st: State,
    base: Seq<char>,
    v: Seq<u32>,
    n: nat,
    depth: nat,
)
    ensures
        left(lib, copy_all(lib, st, base, v, n, depth).1) <= left(lib, st),
    decreases depth, n + 1,
{
    if n > 0 {
        lemma_left_all(lib, st, base, v, (n - 1) as nat, depth);
        let (g, before) = copy_all(lib, st, base, v, (n - 1) as nat, depth);
        if g is Value {
            lemma_left(lib, before, Origin { base, index: v[n - 1] }, None, depth);
        }
    }
}

/// Whether references are followed as deep as characters can be nested: every one that
/// was not copied yet may refer to the next.
pub open spec fn deep_enough(lib: Seq<Source>, st: State, target: Option<u32>, depth: nat) -> bool {
    depth >= left(lib, st) + if target is Some {
        1nat
    } else {
        0
    }
}

/// Where a character is copied, there is something left to copy, and enough depth for
/// what it refers to.
pub proof fn lemma_deep(lib: Seq<Source>, st: State, o: Origin, target: Option<u32>, depth: nat)
    requires
        deep_enough(lib, st, target, depth),
    ensures
        ({
            let g = settle(lib, st, o, target is None, imports(lib, lib.len()));
            g matches Got::Value(c) ==> (target is None && lookup(st.memo, c, 0) is Some) || {
                let slot = match target {
                    Some(t) => t,
                    None => st.slots.len() as u32,
                };
                &&& depth > 0
                &&& load(lib, c.base) matches Got::Value(m) && !is_empty(m, c.index)
                &&& deep_enough(
                    lib,
                    st.claim(c, target).remember(c, slot),
                    None,
                    (depth - 1) as nat,
                )
            }
        }),
{
    lemma_settled(lib, st, o, target is None, imports(lib, lib.len()));
    let g = settle(lib, st, o, target is None, imports(lib, lib.len()));
    if g is Value {
        let slot = match target {
            Some(t) => t,
            None => st.slots.len() as u32,
        };
        lemma_claimed(lib, st, g->Value_0, target, slot);
    }
}

/// References are followed as deep as they go: where they are followed as deep as there
/// are characters left to copy, following them deeper gives nothing else.
pub proof fn law_depth(lib: Seq<Source>, st: State, o: Origin, target: Option<u32>, depth: nat)
    requires
        deep_enough(lib, st, target, depth),
    ensures
        copy(lib, st, o, target, depth + 1) == copy(lib, st, o, target, depth),
    decreases depth, 0nat,
{
    lemma_deep(lib, st, o, target, depth);
    let g = settle(lib, st, o, target is None, imports(lib, lib.len()));
    if g is Value {
        let c = g->Value_0;
        if !(target is None && lookup(st.memo, c, 0) is Some) {
            let slot = match target {
                Some(t) => t,
                None => st.slots.len() as u32,
            };
            let claimed = st.claim(c, target).remember(c, slot);
            let m = load(lib, c.base)->Value_0;
            if m.characters[c.index as int] is Character {
                let x = m.characters[c.index as int]->Character_0;
                lemma_depth_all(lib, claimed, c.base, refs(x), refs(x).len(), (depth - 1) as nat);
                assert((depth + 1 - 1) as nat == depth);
            }
        }
    }
}

proof fn lemma_depth_all(
    lib: Seq<Source>,
    st: State,
    base: Seq<char>,
    v: Seq<u32>,
    n: nat,
    depth: nat,
)
    requires
        deep_enough(lib, st, None, depth),
    ensures
        copy_all(lib, st, base, v, n, depth + 1) == copy_all(lib, st, base, v, n, depth),
    decreases depth, n + 1,
{
    if n > 0 {
        lemma_depth_all(lib, st, base, v, (n - 1) as nat, depth);
        lemma_left_all(lib, st, base, v, (n - 1) as nat, depth);
        let (g, before) = copy_all(lib, st, base, v, (n - 1) as nat, depth);
        if g is Value {
            law_depth(lib, before, Origin { base, index: v[n - 1] }, None, depth);
        }
    }
}

/// Without imports, resolving changes nothing.
pub proof fn law_nothing_to_import(lib: Seq<Source>, base: Seq<char>, f: AptFile)
    requires
        f.movie.imports.len() == 0,
    ensures
        import_all(lib, base, f.movie, 0).0 == Got::Value(Seq::<Unresolved>::empty()),
        merged(f, import_all(lib, base, f.movie, 0).1) == f,
{
    assert(f.movie.imports =~= Seq::empty());
}

} // verus!
