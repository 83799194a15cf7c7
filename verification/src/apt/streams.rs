//! The action streams of a movie, and what they list.
use super::actions::{ActionStream, Instruction};
use super::model;
use super::types::{ButtonAction, Character, CharacterSlot, Control, EventAction, Frame, Movie};
use crate::text;
use vstd::prelude::*;

verus! {

/// Where an action stream stands in its timeline or button.
#[derive(Debug, Clone, Copy, PartialEq, Eq, Structural)]
pub enum StreamLabel {
    Action { frame: usize },
    InitAction { frame: usize },
    ClipEvent { frame: usize, event: usize },
    ButtonAction { index: usize, conditions: i32 },
}

/// An action stream with where it stands.
pub struct LabelledStream<'a> {
    pub label: StreamLabel,
    pub stream: &'a ActionStream,
}

/// The counterpart of [`LabelledStream`] that contracts speak of.
#[verifier::ext_equal]
pub struct Labelled {
    pub label: StreamLabel,
    pub code: Seq<model::Instruction>,
}

impl<'a> View for LabelledStream<'a> {
    type V = Labelled;

    open spec fn view(&self) -> Labelled {
        Labelled { label: self.label, code: self.stream@ }
    }
}

/// The handlers of a placement.
pub open spec fn event_streams(v: Seq<model::EventAction>, frame: usize) -> Seq<Labelled> {
    Seq::new(
        v.len(),
        |i: int|
            Labelled {
                label: StreamLabel::ClipEvent { frame, event: i as usize },
                code: v[i].actions,
            },
    )
}

/// The streams of a control.
pub open spec fn control_streams(c: model::Control, frame: usize) -> Seq<Labelled> {
    match c {
        model::Control::Action(code) => seq![
            Labelled { label: StreamLabel::Action { frame }, code },
        ],
        model::Control::InitAction { actions, .. } => seq![
            Labelled { label: StreamLabel::InitAction { frame }, code: actions },
        ],
        model::Control::PlaceObject(p) => match p.clip_actions {
            Some(v) => event_streams(v, frame),
            None => Seq::empty(),
        },
        _ => Seq::empty(),
    }
}

/// The streams of the first `n` controls of a frame.
pub open spec fn controls_streams(v: Seq<model::Control>, frame: usize, n: nat) -> Seq<Labelled>
    decreases n,
{
    if n == 0 {
        Seq::empty()
    } else {
        controls_streams(v, frame, (n - 1) as nat) + control_streams(v[n - 1], frame)
    }
}

/// The streams of the first `n` frames.
pub open spec fn frames_streams(v: Seq<model::Frame>, n: nat) -> Seq<Labelled>
    decreases n,
{
    if n == 0 {
        Seq::empty()
    } else {
        frames_streams(v, (n - 1) as nat) + controls_streams(
            v[n - 1].controls,
            (n - 1) as usize,
            v[n - 1].controls.len(),
        )
    }
}

/// The streams of a button.
pub open spec fn button_streams(v: Seq<model::ButtonAction>) -> Seq<Labelled> {
    Seq::new(
        v.len(),
        |i: int|
            Labelled {
                label: StreamLabel::ButtonAction {
                    index: i as usize,
                    conditions: v[i].conditions,
                },
                code: v[i].actions,
            },
    )
}

/// The streams of a character.
pub open spec fn streams_of(c: model::Character) -> Seq<Labelled> {
    match c {
        model::Character::Sprite(frames) => frames_streams(frames, frames.len()),
        model::Character::Button(b) => button_streams(b.actions),
        _ => Seq::empty(),
    }
}

/// The streams of what a slot holds.
pub open spec fn slot_streams(s: model::CharacterSlot) -> Seq<Labelled> {
    match s {
        model::CharacterSlot::Character(c) => streams_of(c),
        _ => Seq::empty(),
    }
}

/// The streams of the first `n` characters.
pub open spec fn slots_streams(v: Seq<model::CharacterSlot>, n: nat) -> Seq<Labelled>
    decreases n,
{
    if n == 0 {
        Seq::empty()
    } else {
        slots_streams(v, (n - 1) as nat) + slot_streams(v[n - 1])
    }
}

/// The streams of a movie: those of its own frames, then those of its characters.
pub open spec fn movie_streams(m: model::Movie) -> Seq<Labelled> {
    frames_streams(m.frames, m.frames.len()) + slots_streams(m.characters, m.characters.len())
}

fn push_events<'a>(out: &mut Vec<LabelledStream<'a>>, v: &'a Vec<EventAction>, frame: usize)
    ensures
        model::views(final(out)@) == model::views(old(out)@) + event_streams(
            model::views(v@),
            frame,
        ),
{
    let ghost before = model::views(out@);
    let ghost all = event_streams(model::views(v@), frame);
    let mut i: usize = 0;
    assert(before + all.take(0) =~= before);
    while i < v.len()
        invariant
            i <= v@.len(),
            all == event_streams(model::views(v@), frame),
            model::views(out@) == before + all.take(i as int),
        decreases v@.len() - i,
    {
        let ghost seen = model::views(out@);
        let x = LabelledStream {
            label: StreamLabel::ClipEvent { frame, event: i },
            stream: &v[i].actions,
        };
        assert(x@ == all[i as int]);
        out.push(x);
        assert(model::views(out@) =~= seen.push(x@));
        i = i + 1;
        assert(model::views(out@) =~= before + all.take(i as int));
    }
    assert(all.take(i as int) =~= all);
}

fn push_control<'a>(out: &mut Vec<LabelledStream<'a>>, c: &'a Control, frame: usize)
    ensures
        model::views(final(out)@) == model::views(old(out)@) + control_streams(c@, frame),
{
    let ghost before = model::views(out@);
    match c {
        Control::Action(stream) => {
            out.push(LabelledStream { label: StreamLabel::Action { frame }, stream });
            assert(model::views(out@) =~= before + control_streams(c@, frame));
        },
        Control::InitAction { actions, .. } => {
            out.push(LabelledStream { label: StreamLabel::InitAction { frame }, stream: actions });
            assert(model::views(out@) =~= before + control_streams(c@, frame));
        },
        Control::PlaceObject(p) => {
            match &p.clip_actions {
                Some(v) => push_events(out, v, frame),
                None => {
                    assert(before + control_streams(c@, frame) =~= before);
                },
            }
        },
        _ => {
            assert(before + control_streams(c@, frame) =~= before);
        },
    }
}

fn push_frames<'a>(out: &mut Vec<LabelledStream<'a>>, frames: &'a Vec<Frame>)
    ensures
        model::views(final(out)@) == model::views(old(out)@) + frames_streams(
            model::views(frames@),
            frames@.len(),
        ),
{
    let ghost m = model::views(frames@);
    let ghost before = model::views(out@);
    let mut i: usize = 0;
    assert(before + frames_streams(m, 0) =~= before);
    while i < frames.len()
        invariant
            m == model::views(frames@),
            i <= frames@.len(),
            model::views(out@) == before + frames_streams(m, i as nat),
        decreases frames@.len() - i,
    {
        let controls = &frames[i].controls;
        let ghost c = m[i as int].controls;
        let ghost seen = model::views(out@);
        assert(c == model::views(controls@));
        let mut k: usize = 0;
        assert(seen + controls_streams(c, i, 0) =~= seen);
        while k < controls.len()
            invariant
                c == model::views(controls@),
                k <= controls@.len(),
                model::views(out@) == seen + controls_streams(c, i, k as nat),
            decreases controls@.len() - k,
        {
            assert(c[k as int] == controls@[k as int]@);
            push_control(out, &controls[k], i);
            k = k + 1;
            assert(model::views(out@) =~= seen + controls_streams(c, i, k as nat));
        }
        i = i + 1;
        assert(model::views(out@) =~= before + frames_streams(m, i as nat));
    }
}

fn push_button<'a>(out: &mut Vec<LabelledStream<'a>>, v: &'a Vec<ButtonAction>)
    ensures
        model::views(final(out)@) == model::views(old(out)@) + button_streams(model::views(v@)),
{
    let ghost before = model::views(out@);
    let ghost all = button_streams(model::views(v@));
    let mut i: usize = 0;
    assert(before + all.take(0) =~= before);
    while i < v.len()
        invariant
            i <= v@.len(),
            all == button_streams(model::views(v@)),
            model::views(out@) == before + all.take(i as int),
        decreases v@.len() - i,
    {
        let ghost seen = model::views(out@);
        let x = LabelledStream {
            label: StreamLabel::ButtonAction { index: i, conditions: v[i].conditions },
            stream: &v[i].actions,
        };
        assert(x@ == all[i as int]);
        out.push(x);
        assert(model::views(out@) =~= seen.push(x@));
        i = i + 1;
        assert(model::views(out@) =~= before + all.take(i as int));
    }
    assert(all.take(i as int) =~= all);
}

fn push_character<'a>(out: &mut Vec<LabelledStream<'a>>, c: &'a Character)
    ensures
        model::views(final(out)@) == model::views(old(out)@) + streams_of(c@),
{
    match c {
        Character::Sprite(s) => push_frames(out, &s.frames),
        Character::Button(b) => push_button(out, &b.actions),
        _ => {
            assert(model::views(out@) + streams_of(c@) =~= model::views(out@));
        },
    }
}

/// The action streams of a character.
pub fn character_streams(c: &Character) -> (out: Vec<LabelledStream<'_>>)
    ensures
        model::views(out@) == streams_of(c@),
{
    let mut out: Vec<LabelledStream> = Vec::new();
    push_character(&mut out, c);
    assert(model::views(out@) =~= streams_of(c@));
    out
}

/// The action streams of a movie: those of its own frames, then those of its
/// characters.
pub fn all_streams(movie: &Movie) -> (out: Vec<LabelledStream<'_>>)
    ensures
        model::views(out@) == movie_streams(movie@),
{
    let mut out: Vec<LabelledStream> = Vec::new();
    push_frames(&mut out, &movie.frames);
    let ghost m = model::views(movie.characters@);
    let ghost before = frames_streams(movie@.frames, movie@.frames.len());
    let mut i: usize = 0;
    assert(model::views(out@) =~= before + slots_streams(m, 0));
    while i < movie.characters.len()
        invariant
            m == model::views(movie.characters@),
            i <= movie.characters@.len(),
            model::views(out@) == before + slots_streams(m, i as nat),
        decreases movie.characters@.len() - i,
    {
        assert(m[i as int] == movie.characters@[i as int]@);
        let ghost seen = model::views(out@);
        match &movie.characters[i] {
            CharacterSlot::Character(c) => push_character(&mut out, c),
            _ => {
                assert(seen + slot_streams(m[i as int]) =~= seen);
            },
        }
        i = i + 1;
        assert(model::views(out@) =~= before + slots_streams(m, i as nat));
    }
    out
}

/// The stream that a control runs.
pub fn control_stream(c: &Control) -> (r: Option<&ActionStream>)
    ensures
        match c@ {
            model::Control::Action(code) => r matches Some(s) && s@ == code,
            model::Control::InitAction { actions, .. } => r matches Some(s) && s@ == actions,
            _ => r is None,
        },
{
    match c {
        Control::Action(s) => Some(s),
        Control::InitAction { actions, .. } => Some(actions),
        _ => None,
    }
}

/// A line of a listing: an instruction, the head of a function, or the end of one.
pub enum Line<'a> {
    Plain(&'a Instruction),
    Open(&'a Instruction),
    Close,
}

/// A line of a listing with how deep it is nested.
pub struct ListedLine<'a> {
    pub depth: usize,
    pub line: Line<'a>,
}

/// The counterpart of [`Line`] that contracts speak of.
pub enum Entry {
    Plain(model::Instruction),
    Open(model::Instruction),
    Close,
}

/// The counterpart of [`ListedLine`] that contracts speak of.
pub struct Listed {
    pub depth: nat,
    pub entry: Entry,
}

impl<'a> View for ListedLine<'a> {
    type V = Listed;

    open spec fn view(&self) -> Listed {
        Listed {
            depth: self.depth as nat,
            entry: match self.line {
                Line::Plain(i) => Entry::Plain(i@),
                Line::Open(i) => Entry::Open(i@),
                Line::Close => Entry::Close,
            },
        }
    }
}

/// The lines of an instruction: of a function, its head, its body and its end.
pub open spec fn insn_lines(i: model::Instruction, depth: nat) -> Seq<Listed>
    decreases i, 0int,
{
    match i {
        model::Instruction::DefineFunction { body, .. } => seq![
            Listed { depth, entry: Entry::Open(i) },
        ] + stream_lines(body, depth + 1, body.len()) + seq![Listed { depth, entry: Entry::Close }],
        model::Instruction::DefineFunction2 { body, .. } => seq![
            Listed { depth, entry: Entry::Open(i) },
        ] + stream_lines(body, depth + 1, body.len()) + seq![Listed { depth, entry: Entry::Close }],
        _ => seq![Listed { depth, entry: Entry::Plain(i) }],
    }
}

/// The lines of the first `n` instructions.
pub open spec fn stream_lines(s: Seq<model::Instruction>, depth: nat, n: nat) -> Seq<Listed>
    decreases s, n,
{
    if n == 0 || n > s.len() {
        Seq::empty()
    } else {
        stream_lines(s, depth, (n - 1) as nat) + insn_lines(s[n - 1], depth)
    }
}

fn list_function<'a>(
    out: &mut Vec<ListedLine<'a>>,
    i: &'a Instruction,
    body: &'a ActionStream,
    depth: usize,
)
    requires
        depth <= old(out)@.len(),
        match i@ {
            model::Instruction::DefineFunction { body: b, .. } => b == body@,
            model::Instruction::DefineFunction2 { body: b, .. } => b == body@,
            _ => false,
        },
    ensures
        model::views(final(out)@) == model::views(old(out)@) + insn_lines(i@, depth as nat),
    decreases body, 1int,
{
    let ghost before = model::views(out@);
    let head = ListedLine { depth, line: Line::Open(i) };
    out.push(head);
    assert(model::views(out@) =~= before.push(head@));
    let count: usize = out.len();
    assert(depth < count);
    list_stream(out, body, depth + 1);
    let ghost seen = model::views(out@);
    let tail = ListedLine { depth, line: Line::Close };
    out.push(tail);
    assert(model::views(out@) =~= seen.push(tail@));
    assert(model::views(out@) =~= before + insn_lines(i@, depth as nat));
}

fn list_insn<'a>(out: &mut Vec<ListedLine<'a>>, i: &'a Instruction, depth: usize)
    requires
        depth <= old(out)@.len(),
    ensures
        model::views(final(out)@) == model::views(old(out)@) + insn_lines(i@, depth as nat),
    decreases i, 0int,
{
    match i {
        Instruction::DefineFunction { body, .. } => list_function(out, i, body, depth),
        Instruction::DefineFunction2 { body, .. } => list_function(out, i, body, depth),
        _ => {
            let ghost before = model::views(out@);
            let x = ListedLine { depth, line: Line::Plain(i) };
            out.push(x);
            assert(model::views(out@) =~= before + insn_lines(i@, depth as nat));
        },
    }
}

fn list_stream<'a>(out: &mut Vec<ListedLine<'a>>, s: &'a ActionStream, depth: usize)
    requires
        depth <= old(out)@.len(),
    ensures
        model::views(final(out)@) == model::views(old(out)@) + stream_lines(
            s@,
            depth as nat,
            s@.len(),
        ),
    decreases s, 0int,
{
    let ghost before = model::views(out@);
    let mut i: usize = 0;
    assert(before + stream_lines(s@, depth as nat, 0) =~= before);
    while i < s.instructions.len()
        invariant
            i <= s.instructions@.len(),
            depth <= out@.len(),
            model::views(out@) == before + stream_lines(s@, depth as nat, i as nat),
        decreases s.instructions@.len() - i,
    {
        assert(decreases_to!(s => s.instructions));
        assert(decreases_to!(s.instructions => s.instructions@));
        assert(s@[i as int] == s.instructions@[i as int]@);
        let ghost seen = model::views(out@);
        list_insn(out, &s.instructions[i], depth);
        i = i + 1;
        assert(model::views(out@) =~= before + stream_lines(s@, depth as nat, i as nat));
        assert(out@.len() == model::views(out@).len());
        assert(seen.len() >= depth);
    }
}

/// The lines that list an action stream.
pub fn disassemble(stream: &ActionStream) -> (out: Vec<ListedLine<'_>>)
    ensures
        model::views(out@) == stream_lines(stream@, 0, stream@.len()),
{
    let mut out: Vec<ListedLine> = Vec::new();
    list_stream(&mut out, stream, 0);
    assert(model::views(out@) =~= stream_lines(stream@, 0, stream@.len()));
    out
}

/// How many of the first `n` characters are of a kind.
pub open spec fn kind_count(v: Seq<model::CharacterSlot>, kind: Seq<char>, n: nat) -> nat
    decreases n,
{
    if n == 0 {
        0
    } else {
        kind_count(v, kind, (n - 1) as nat) + if slot_kind(v[n - 1]) == kind {
            1nat
        } else {
            0
        }
    }
}

/// The kind of what a slot holds.
pub open spec fn slot_kind(s: model::CharacterSlot) -> Seq<char> {
    match s {
        model::CharacterSlot::Root => "Animation(root)"@,
        model::CharacterSlot::Empty => "empty"@,
        model::CharacterSlot::Character(c) => c.kind_name(),
    }
}

fn kind_of(s: &CharacterSlot) -> (k: &'static str)
    ensures
        k@ == slot_kind(s@),
{
    match s {
        CharacterSlot::Root => "Animation(root)",
        CharacterSlot::Empty => "empty",
        CharacterSlot::Character(c) => c.kind_name(),
    }
}

/// How many characters of a movie are of a kind.
pub fn count_kind(movie: &Movie, kind: &str) -> (n: usize)
    ensures
        n == kind_count(movie@.characters, kind@, movie@.characters.len()),
{
    let ghost m = movie@.characters;
    let mut n: usize = 0;
    let mut i: usize = 0;
    while i < movie.characters.len()
        invariant
            m == model::views(movie.characters@),
            i <= movie.characters@.len(),
            n == kind_count(m, kind@, i as nat),
            n <= i,
        decreases movie.characters@.len() - i,
    {
        assert(m[i as int] == movie.characters@[i as int]@);
        if text::same_text(kind_of(&movie.characters[i]), kind) {
            n = n + 1;
        }
        i = i + 1;
    }
    n
}

} // verus!
