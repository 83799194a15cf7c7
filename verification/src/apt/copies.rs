//! Copies of values that hold other values.
use super::actions::{ActionStream, CatchVar, Instruction};
use super::model;
use super::types::{
    Button, ButtonAction, ButtonRecord, Character, CharacterSlot, Control, EventAction, Export,
    F32Bits, Filter, Font, Frame, PlaceObject, Sprite, StaticText, StaticTextRecord, Text, Value,
};
use vstd::prelude::*;

verus! {

fn values(v: &Vec<Value>) -> (out: Vec<Value>)
    ensures
        model::views(out@) == model::views(v@),
{
    let mut out: Vec<Value> = Vec::new();
    let mut i: usize = 0;
    while i < v.len()
        invariant
            i <= v@.len(),
            out@.len() == i,
            forall|k: int| 0 <= k < i ==> (#[trigger] out@[k])@ == v@[k]@,
        decreases v@.len() - i,
    {
        out.push(v[i].duplicate());
        i = i + 1;
    }
    assert(model::views(out@) =~= model::views(v@));
    out
}

fn names(v: &Vec<String>) -> (out: Vec<String>)
    ensures
        model::names(out@) == model::names(v@),
{
    let mut out: Vec<String> = Vec::new();
    let mut i: usize = 0;
    while i < v.len()
        invariant
            i <= v@.len(),
            out@.len() == i,
            forall|k: int| 0 <= k < i ==> (#[trigger] out@[k])@ == v@[k]@,
        decreases v@.len() - i,
    {
        out.push(v[i].clone());
        i = i + 1;
    }
    assert(model::names(out@) =~= model::names(v@));
    out
}

fn params(v: &Vec<(u32, String)>) -> (out: Vec<(u32, String)>)
    ensures
        model::reg_names(out@) == model::reg_names(v@),
{
    let mut out: Vec<(u32, String)> = Vec::new();
    let mut i: usize = 0;
    while i < v.len()
        invariant
            i <= v@.len(),
            out@.len() == i,
            forall|k: int|
                0 <= k < i ==> (#[trigger] out@[k]).0 == v@[k].0 && out@[k].1@ == v@[k].1@,
        decreases v@.len() - i,
    {
        out.push((v[i].0, v[i].1.clone()));
        i = i + 1;
    }
    assert(model::reg_names(out@) =~= model::reg_names(v@));
    out
}

fn catch_var(v: &Option<CatchVar>) -> (r: Option<CatchVar>)
    ensures
        match (r, *v) {
            (Some(a), Some(b)) => a@ == b@,
            (None, None) => true,
            _ => false,
        },
{
    match v {
        Some(CatchVar::Register(r)) => Some(CatchVar::Register(*r)),
        Some(CatchVar::Variable(s)) => Some(CatchVar::Variable(s.clone())),
        None => None,
    }
}

impl Instruction {
    /// An equal instruction of its own.
    pub fn duplicate(&self) -> (r: Instruction)
        ensures
            r@ == self@,
        decreases self,
    {
        match self {
            Instruction::End => Instruction::End,
            Instruction::Simple(op) => Instruction::Simple(*op),
            Instruction::GotoFrame(f) => Instruction::GotoFrame(*f),
            Instruction::GetUrl { url, target } => Instruction::GetUrl {
                url: url.clone(),
                target: target.clone(),
            },
            Instruction::StoreRegister(r) => Instruction::StoreRegister(*r),
            Instruction::SetTarget(s) => Instruction::SetTarget(s.clone()),
            Instruction::GotoLabel(s) => Instruction::GotoLabel(s.clone()),
            Instruction::GotoFrame2 { play } => Instruction::GotoFrame2 { play: *play },
            Instruction::Push(v) => Instruction::Push(values(v)),
            Instruction::DefineDictionary(v) => Instruction::DefineDictionary(values(v)),
            Instruction::DefineFunction { name, params, body } => Instruction::DefineFunction {
                name: name.clone(),
                params: names(params),
                body: body.duplicate(),
            },
            Instruction::DefineFunction2 { name, params: p, register_count, flags, body } => {
                Instruction::DefineFunction2 {
                    name: name.clone(),
                    params: params(p),
                    register_count: *register_count,
                    flags: *flags,
                    body: body.duplicate(),
                }
            },
            Instruction::Try {
                try_count,
                catch_count,
                finally_count,
                has_catch,
                has_finally,
                catch_var: v,
            } => {
                Instruction::Try {
                    try_count: *try_count,
                    catch_count: *catch_count,
                    finally_count: *finally_count,
                    has_catch: *has_catch,
                    has_finally: *has_finally,
                    catch_var: catch_var(v),
                }
            },
            Instruction::With { end_target } => Instruction::With { end_target: *end_target },
            Instruction::BranchAlways { target } => Instruction::BranchAlways { target: *target },
            Instruction::BranchIfTrue { target } => Instruction::BranchIfTrue { target: *target },
            Instruction::BranchIfFalse { target } => Instruction::BranchIfFalse {
                target: *target,
            },
            Instruction::TraceStart(v) => Instruction::TraceStart(*v),
            Instruction::PushString { kind, value } => Instruction::PushString {
                kind: *kind,
                value: value.clone(),
            },
            Instruction::DictRef { kind, index } => Instruction::DictRef {
                kind: *kind,
                index: *index,
            },
            Instruction::PushFloat(v) => Instruction::PushFloat(*v),
            Instruction::PushByte(v) => Instruction::PushByte(*v),
            Instruction::PushWord(v) => Instruction::PushWord(*v),
            Instruction::PushDWord(v) => Instruction::PushDWord(*v),
            Instruction::PushRegister(v) => Instruction::PushRegister(*v),
        }
    }
}

impl ActionStream {
    /// An equal stream of its own.
    pub fn duplicate(&self) -> (r: ActionStream)
        ensures
            r@ == self@,
        decreases self,
    {
        let mut instructions: Vec<Instruction> = Vec::new();
        let mut i: usize = 0;
        while i < self.instructions.len()
            invariant
                i <= self.instructions@.len(),
                instructions@.len() == i,
                forall|k: int|
                    0 <= k < i ==> (#[trigger] instructions@[k])@ == self.instructions@[k]@,
            decreases self.instructions@.len() - i,
        {
            assert(decreases_to!(self => self.instructions));
            assert(decreases_to!(self.instructions => self.instructions@));
            instructions.push(self.instructions[i].duplicate());
            i = i + 1;
        }
        let r = ActionStream { instructions };
        assert(r@ =~= self@);
        r
    }
}

/// Equal filters of their own.
pub fn filters(v: &Vec<Filter>) -> (out: Vec<Filter>)
    ensures
        model::views(out@) == model::views(v@),
{
    let mut out: Vec<Filter> = Vec::new();
    let mut i: usize = 0;
    while i < v.len()
        invariant
            i <= v@.len(),
            out@.len() == i,
            forall|k: int| 0 <= k < i ==> (#[trigger] out@[k])@ == v@[k]@,
        decreases v@.len() - i,
    {
        out.push(v[i].duplicate());
        i = i + 1;
    }
    assert(model::views(out@) =~= model::views(v@));
    out
}

fn event_actions(v: &Vec<EventAction>) -> (out: Vec<EventAction>)
    ensures
        model::views(out@) == model::views(v@),
{
    let mut out: Vec<EventAction> = Vec::new();
    let mut i: usize = 0;
    while i < v.len()
        invariant
            i <= v@.len(),
            out@.len() == i,
            forall|k: int| 0 <= k < i ==> (#[trigger] out@[k])@ == v@[k]@,
        decreases v@.len() - i,
    {
        out.push(
            EventAction {
                triggers: v[i].triggers,
                key_code: v[i].key_code,
                actions: v[i].actions.duplicate(),
            },
        );
        i = i + 1;
    }
    assert(model::views(out@) =~= model::views(v@));
    out
}

impl PlaceObject {
    /// An equal placement of its own.
    pub fn duplicate(&self) -> (r: PlaceObject)
        ensures
            r@ == self@,
    {
        let name = match &self.name {
            Some(n) => Some(n.clone()),
            None => None,
        };
        let clip_actions = match &self.clip_actions {
            Some(v) => Some(event_actions(v)),
            None => None,
        };
        PlaceObject {
            is_move: self.is_move,
            depth: self.depth,
            character_id: self.character_id,
            matrix: self.matrix,
            cxform: self.cxform,
            ratio: self.ratio,
            name,
            clip_depth: self.clip_depth,
            clip_actions,
            blend_mode: self.blend_mode,
            filters: filters(&self.filters),
        }
    }
}

impl Control {
    /// An equal control of its own.
    pub fn duplicate(&self) -> (r: Control)
        ensures
            r@ == self@,
    {
        match self {
            Control::Action(s) => Control::Action(s.duplicate()),
            Control::FrameLabel(s) => Control::FrameLabel(s.clone()),
            Control::PlaceObject(p) => Control::PlaceObject(p.duplicate()),
            Control::RemoveObject { depth } => Control::RemoveObject { depth: *depth },
            Control::BackgroundColor(c) => Control::BackgroundColor(*c),
            Control::StartSound { sound_id } => Control::StartSound { sound_id: *sound_id },
            Control::StartSoundStream { sound_id } => Control::StartSoundStream {
                sound_id: *sound_id,
            },
            Control::InitAction { sprite_id, actions } => Control::InitAction {
                sprite_id: *sprite_id,
                actions: actions.duplicate(),
            },
        }
    }
}

fn controls(v: &Vec<Control>) -> (out: Vec<Control>)
    ensures
        model::views(out@) == model::views(v@),
{
    let mut out: Vec<Control> = Vec::new();
    let mut i: usize = 0;
    while i < v.len()
        invariant
            i <= v@.len(),
            out@.len() == i,
            forall|k: int| 0 <= k < i ==> (#[trigger] out@[k])@ == v@[k]@,
        decreases v@.len() - i,
    {
        out.push(v[i].duplicate());
        i = i + 1;
    }
    assert(model::views(out@) =~= model::views(v@));
    out
}

/// Equal frames of their own.
pub fn frames(v: &Vec<Frame>) -> (out: Vec<Frame>)
    ensures
        model::views(out@) == model::views(v@),
{
    let mut out: Vec<Frame> = Vec::new();
    let mut i: usize = 0;
    while i < v.len()
        invariant
            i <= v@.len(),
            out@.len() == i,
            forall|k: int| 0 <= k < i ==> (#[trigger] out@[k])@ == v@[k]@,
        decreases v@.len() - i,
    {
        out.push(Frame { controls: controls(&v[i].controls) });
        i = i + 1;
    }
    assert(model::views(out@) =~= model::views(v@));
    out
}

fn records(v: &Vec<StaticTextRecord>) -> (out: Vec<StaticTextRecord>)
    ensures
        model::views(out@) == model::views(v@),
{
    let mut out: Vec<StaticTextRecord> = Vec::new();
    let mut i: usize = 0;
    while i < v.len()
        invariant
            i <= v@.len(),
            out@.len() == i,
            forall|k: int| 0 <= k < i ==> (#[trigger] out@[k])@ == v@[k]@,
        decreases v@.len() - i,
    {
        let glyphs = v[i].glyphs.clone();
        assert(glyphs@ =~= v@[i as int].glyphs@);
        out.push(
            StaticTextRecord {
                font_id: v[i].font_id,
                cxform: v[i].cxform,
                x_offset: v[i].x_offset,
                y_offset: v[i].y_offset,
                scale: v[i].scale,
                glyphs,
            },
        );
        i = i + 1;
    }
    assert(model::views(out@) =~= model::views(v@));
    out
}

fn button_actions(v: &Vec<ButtonAction>) -> (out: Vec<ButtonAction>)
    ensures
        model::views(out@) == model::views(v@),
{
    let mut out: Vec<ButtonAction> = Vec::new();
    let mut i: usize = 0;
    while i < v.len()
        invariant
            i <= v@.len(),
            out@.len() == i,
            forall|k: int| 0 <= k < i ==> (#[trigger] out@[k])@ == v@[k]@,
        decreases v@.len() - i,
    {
        out.push(
            ButtonAction { conditions: v[i].conditions, actions: v[i].actions.duplicate() },
        );
        i = i + 1;
    }
    assert(model::views(out@) =~= model::views(v@));
    out
}

fn button_records(v: &Vec<ButtonRecord>) -> (out: Vec<ButtonRecord>)
    ensures
        model::views(out@) == model::views(v@),
{
    let mut out: Vec<ButtonRecord> = Vec::new();
    let mut i: usize = 0;
    while i < v.len()
        invariant
            i <= v@.len(),
            out@.len() == i,
            forall|k: int| 0 <= k < i ==> (#[trigger] out@[k])@ == v@[k]@,
        decreases v@.len() - i,
    {
        out.push(v[i]);
        i = i + 1;
    }
    assert(model::views(out@) =~= model::views(v@));
    out
}

fn triangles(v: &Vec<[i16; 3]>) -> (out: Vec<[i16; 3]>)
    ensures
        model::views(out@) == model::views(v@),
{
    let mut out: Vec<[i16; 3]> = Vec::new();
    let mut i: usize = 0;
    while i < v.len()
        invariant
            i <= v@.len(),
            out@ == v@.take(i as int),
        decreases v@.len() - i,
    {
        out.push(v[i]);
        i = i + 1;
        assert(out@ =~= v@.take(i as int));
    }
    assert(out@ =~= v@);
    out
}

fn vertices(v: &Vec<(F32Bits, F32Bits)>) -> (out: Vec<(F32Bits, F32Bits)>)
    ensures
        out@ == v@,
{
    let mut out: Vec<(F32Bits, F32Bits)> = Vec::new();
    let mut i: usize = 0;
    while i < v.len()
        invariant
            i <= v@.len(),
            out@ == v@.take(i as int),
        decreases v@.len() - i,
    {
        out.push(v[i]);
        i = i + 1;
        assert(out@ =~= v@.take(i as int));
    }
    assert(out@ =~= v@);
    out
}

impl Character {
    /// An equal character of its own.
    pub fn duplicate(&self) -> (r: Character)
        ensures
            r@ == self@,
    {
        match self {
            Character::Shape(s) => Character::Shape(*s),
            Character::Text(t) => Character::Text(
                Text {
                    bounds: t.bounds,
                    font_id: t.font_id,
                    alignment: t.alignment,
                    color: t.color,
                    font_height: t.font_height,
                    read_only: t.read_only,
                    multiline: t.multiline,
                    word_wrap: t.word_wrap,
                    initial_text: t.initial_text.clone(),
                    variable: t.variable.clone(),
                },
            ),
            Character::Font(f) => {
                let glyphs = f.glyphs.clone();
                assert(glyphs@ =~= f.glyphs@);
                Character::Font(Font { name: f.name.clone(), glyphs })
            },
            Character::Button(b) => {
                Character::Button(
                    Button {
                        is_menu: b.is_menu,
                        hit_test_bounds: b.hit_test_bounds,
                        hit_test_vertices: vertices(&b.hit_test_vertices),
                        hit_test_triangles: triangles(&b.hit_test_triangles),
                        records: button_records(&b.records),
                        actions: button_actions(&b.actions),
                        sounds: b.sounds,
                    },
                )
            },
            Character::Sprite(s) => Character::Sprite(Sprite { frames: frames(&s.frames) }),
            Character::Sound => Character::Sound,
            Character::Bitmap => Character::Bitmap,
            Character::Morph(m) => Character::Morph(*m),
            Character::StaticText(t) => Character::StaticText(
                StaticText { bounds: t.bounds, matrix: t.matrix, records: records(&t.records) },
            ),
            Character::Nothing => Character::Nothing,
            Character::Video => Character::Video,
        }
    }
}

/// Equal slots of their own.
pub fn slots(v: &Vec<CharacterSlot>) -> (out: Vec<CharacterSlot>)
    ensures
        model::views(out@) == model::views(v@),
{
    let mut out: Vec<CharacterSlot> = Vec::new();
    let mut i: usize = 0;
    while i < v.len()
        invariant
            i <= v@.len(),
            out@.len() == i,
            forall|k: int| 0 <= k < i ==> (#[trigger] out@[k])@ == v@[k]@,
        decreases v@.len() - i,
    {
        let slot = match &v[i] {
            CharacterSlot::Root => CharacterSlot::Root,
            CharacterSlot::Empty => CharacterSlot::Empty,
            CharacterSlot::Character(c) => CharacterSlot::Character(c.duplicate()),
        };
        out.push(slot);
        i = i + 1;
    }
    assert(model::views(out@) =~= model::views(v@));
    out
}

/// Equal exports of their own.
pub fn exports(v: &Vec<Export>) -> (out: Vec<Export>)
    ensures
        model::views(out@) == model::views(v@),
{
    let mut out: Vec<Export> = Vec::new();
    let mut i: usize = 0;
    while i < v.len()
        invariant
            i <= v@.len(),
            out@.len() == i,
            forall|k: int| 0 <= k < i ==> (#[trigger] out@[k])@ == v@[k]@,
        decreases v@.len() - i,
    {
        out.push(Export { name: v[i].name.clone(), character_id: v[i].character_id });
        i = i + 1;
    }
    assert(model::views(out@) =~= model::views(v@));
    out
}

} // verus!
