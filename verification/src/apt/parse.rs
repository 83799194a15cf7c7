//! Parser for the `.apt` blob (with its companion `.const`).
use super::actions::{self, ActionStream};
use super::constfile::ConstFile;
use super::decode::{self, Ctx};
use super::error::Error;
use super::io::Cursor;
use super::model;
use super::parsing::{self, PlaceHead, Px, RootHead};
use super::reader::{self, Rd};
use super::types::{
    Button, ButtonAction, ButtonRecord, ButtonSounds, Character, CharacterSlot, Control,
    EventAction, Export, Filter, FloatCxForm, Font, Frame, GlyphEntry, Header, Import, Matrix,
    Morph, Movie, PackedCxForm, PlaceObject, PtrSize, Rect, Shape, Sprite, StaticText,
    StaticTextRecord, Text, TextAlignment, Value,
};
use super::AptFile;
use vstd::prelude::*;

verus! {

/// The first 16 bytes.
fn first_16(data: &[u8]) -> (m: [u8; 16])
    requires
        data@.len() >= 16,
    ensures
        m@ == data@.take(16),
{
    let m = [
        data[0],
        data[1],
        data[2],
        data[3],
        data[4],
        data[5],
        data[6],
        data[7],
        data[8],
        data[9],
        data[10],
        data[11],
        data[12],
        data[13],
        data[14],
        data[15],
    ];
    assert(m@ =~= data@.take(16));
    m
}

/// Sniff the header tag `"Apt Data:<decoupled>:<swfver>:<ptrsize>"`.
/// Missing fields default like the engine: non-decoupled, SWF 6, 4-byte pointers.
pub fn parse_header(data: &[u8]) -> (r: Result<Header, Error>)
    ensures
        match r {
            Ok(h) => parsing::header(data@) == Ok::<model::Header, model::Error>(h@),
            Err(e) => parsing::header(data@) == Err::<model::Header, model::Error>(e@),
        },
{
    if data.len() < 16 {
        return Err(Error::BadAptTag);
    }
    let is_apt = data[0] == 0x41 && data[1] == 0x70 && data[2] == 0x74 && data[3] == 0x20
        && data[4] == 0x44 && data[5] == 0x61 && data[6] == 0x74 && data[7] == 0x61;
    proof {
        let t = data@.take(8);
        assert(is_apt ==> t =~= parsing::tag_word());
        assert(t == parsing::tag_word() ==> {
            &&& t[0] == 0x41 && t[1] == 0x70 && t[2] == 0x74 && t[3] == 0x20
            &&& t[4] == 0x44 && t[5] == 0x61 && t[6] == 0x74 && t[7] == 0x61
        });
    }
    if !is_apt {
        return Err(Error::BadAptTag);
    }
    let raw_tag = first_16(data);
    let decoupled = data[8] == 0x3A && data[9] == 0x31;
    let swf_version: u8 = if data[10] == 0x3A {
        ((data[11] as u16 + 0x100 - 0x30) % 0x100) as u8
    } else {
        6
    };
    let ptr_size = if data[12] == 0x3A {
        match data[13] {
            0x34 => PtrSize::Four,
            0x38 => PtrSize::Eight,
            c => {
                return Err(Error::BadPtrSize(c as char));
            },
        }
    } else {
        PtrSize::Four
    };
    Ok(Header { decoupled, swf_version, ptr_size, raw_tag })
}

/// The number of items that a signed count stands for.
fn items(n: i32) -> (r: u64)
    ensures
        r == reader::items(n),
{
    if n > 0 {
        n as u64
    } else {
        0
    }
}

fn rect(c: &mut Cursor) -> (r: Result<Rect, Error>)
    ensures
        final(c).data == old(c).data,
        final(c).ptr_size == old(c).ptr_size,
        reader::reads(r, parsing::rect(old(c).src(), old(c).rd()), final(c).pos as int),
{
    let left: u32 = c.u32()?;
    let top: u32 = c.u32()?;
    let right: u32 = c.u32()?;
    let bottom: u32 = c.u32()?;
    Ok(Rect { left, top, right, bottom })
}

fn matrix(cur: &mut Cursor) -> (r: Result<Matrix, Error>)
    ensures
        final(cur).data == old(cur).data,
        final(cur).ptr_size == old(cur).ptr_size,
        reader::reads(r, parsing::matrix(old(cur).src(), old(cur).rd()), final(cur).pos as int),
{
    let a: u32 = cur.u32()?;
    let b: u32 = cur.u32()?;
    let c: u32 = cur.u32()?;
    let d: u32 = cur.u32()?;
    let tx: u32 = cur.u32()?;
    let ty: u32 = cur.u32()?;
    Ok(Matrix { a, b, c, d, tx, ty })
}

fn float_cxform(c: &mut Cursor) -> (r: Result<FloatCxForm, Error>)
    ensures
        final(c).data == old(c).data,
        final(c).ptr_size == old(c).ptr_size,
        reader::reads_view(
            r,
            parsing::float_cxform(old(c).src(), old(c).rd()),
            final(c).pos as int,
        ),
{
    let s0: u32 = c.u32()?;
    let s1: u32 = c.u32()?;
    let s2: u32 = c.u32()?;
    let s3: u32 = c.u32()?;
    let t0: u32 = c.u32()?;
    let t1: u32 = c.u32()?;
    let t2: u32 = c.u32()?;
    let t3: u32 = c.u32()?;
    let f = FloatCxForm { scale: [s0, s1, s2, s3], translate: [t0, t1, t2, t3] };
    assert(f@.scale =~= seq![s0, s1, s2, s3]);
    assert(f@.translate =~= seq![t0, t1, t2, t3]);
    Ok(f)
}

/// A pointer-width slot that holds a 4-byte number.
fn index_slot(c: &mut Cursor) -> (r: Result<u32, Error>)
    ensures
        final(c).data == old(c).data,
        final(c).ptr_size == old(c).ptr_size,
        reader::reads(r, parsing::index_slot(old(c).src(), old(c).rd()), final(c).pos as int),
{
    let v: u64 = c.ptr()?;
    Ok(v as u32)
}

fn vertex(c: &mut Cursor) -> (r: Result<(u32, u32), Error>)
    ensures
        final(c).data == old(c).data,
        final(c).ptr_size == old(c).ptr_size,
        reader::reads(r, parsing::vertex(old(c).src(), old(c).rd()), final(c).pos as int),
{
    let x: u32 = c.u32()?;
    let y: u32 = c.u32()?;
    Ok((x, y))
}

fn triangle(c: &mut Cursor) -> (r: Result<[i16; 3], Error>)
    ensures
        final(c).data == old(c).data,
        final(c).ptr_size == old(c).ptr_size,
        match r {
            Ok(t) => parsing::triangle(old(c).src(), old(c).rd()) == (t@, final(c).rd()),
            Err(e) => parsing::triangle(old(c).src(), old(c).rd()).1.err == Some(e@),
        },
{
    let i: i16 = c.i16()?;
    let j: i16 = c.i16()?;
    let k: i16 = c.i16()?;
    let t = [i, j, k];
    assert(t@ =~= seq![i, j, k]);
    Ok(t)
}

fn button_record(c: &mut Cursor) -> (r: Result<ButtonRecord, Error>)
    ensures
        final(c).data == old(c).data,
        final(c).ptr_size == old(c).ptr_size,
        reader::reads_view(
            r,
            parsing::button_record(old(c).src(), old(c).rd()),
            final(c).pos as int,
        ),
{
    c.align_ptr();
    let states: i32 = c.i32()?;
    let character_id: u32 = index_slot(c)?;
    let layer: i32 = c.i32()?;
    let m = matrix(c)?;
    let cxform = float_cxform(c)?;
    Ok(ButtonRecord { states, character_id, layer, matrix: m, cxform })
}

fn glyph_entry(c: &mut Cursor) -> (r: Result<GlyphEntry, Error>)
    ensures
        final(c).data == old(c).data,
        final(c).ptr_size == old(c).ptr_size,
        reader::reads(r, parsing::glyph_entry(old(c).src(), old(c).rd()), final(c).pos as int),
{
    let index: i16 = c.i16()?;
    let advance: i16 = c.i16()?;
    Ok(GlyphEntry { index, advance })
}

fn import(c: &mut Cursor) -> (r: Result<Import, Error>)
    ensures
        final(c).data == old(c).data,
        final(c).ptr_size == old(c).ptr_size,
        reader::reads_view(r, parsing::import(old(c).src(), old(c).rd()), final(c).pos as int),
{
    c.align_ptr();
    let movie = c.ptr_string()?;
    let name = c.ptr_string()?;
    let character_id: u32 = c.u32()?;
    c.ptr()?;  // file: dead in file
    Ok(Import { movie, name, character_id })
}

fn export(c: &mut Cursor) -> (r: Result<Export, Error>)
    ensures
        final(c).data == old(c).data,
        final(c).ptr_size == old(c).ptr_size,
        reader::reads_view(r, parsing::export(old(c).src(), old(c).rd()), final(c).pos as int),
{
    c.align_ptr();
    let name = c.ptr_string()?;
    let character_id: u32 = c.u32()?;
    Ok(Export { name, character_id })
}

fn edit_text(c: &mut Cursor) -> (r: Result<Text, Error>)
    ensures
        final(c).data == old(c).data,
        final(c).ptr_size == old(c).ptr_size,
        reader::reads_view(r, parsing::edit_text(old(c).src(), old(c).rd()), final(c).pos as int),
{
    let bounds = rect(c)?;
    let font_id: i32 = c.i32()?;
    let alignment: i32 = c.i32()?;
    let color: u32 = c.u32()?;
    let font_height: u32 = c.u32()?;
    let read_only: i32 = c.i32()?;
    let multiline: i32 = c.i32()?;
    let word_wrap: i32 = c.i32()?;
    let initial_text = c.ptr_string()?;
    let variable = c.ptr_string()?;
    Ok(
        Text {
            bounds,
            font_id,
            alignment: TextAlignment::from_i32(alignment),
            color,
            font_height,
            read_only: read_only != 0,
            multiline: multiline != 0,
            word_wrap: word_wrap != 0,
            initial_text,
            variable,
        },
    )
}

struct Parser<'a> {
    cur: Cursor<'a>,
    consts: &'a [Value],
    decoupled: bool,
}

impl<'a> Parser<'a> {
    spec fn ctx(self) -> Ctx {
        actions::ctx(self.cur, self.consts@)
    }

    spec fn px(self) -> Px {
        Px { x: self.ctx(), decoupled: self.decoupled }
    }

    /// Whether `r` holds what `n` readings from `off` on give.
    spec fn list_read<T: View>(
        self,
        r: Result<Vec<T>, Error>,
        step: spec_fn(Rd) -> (T::V, Rd),
        off: u64,
        n: u64,
    ) -> bool {
        let got = reader::reps(step, Rd::start(off as int), n as nat);
        match r {
            Ok(v) => got.1.err is None && model::views(v@) == got.0,
            Err(e) => got.1.err == Some(e@),
        }
    }

    /// As `list_read`, for values that are their own counterparts.
    spec fn plain_list_read<T>(
        self,
        r: Result<Vec<T>, Error>,
        step: spec_fn(Rd) -> (T, Rd),
        off: u64,
        n: u64,
    ) -> bool {
        let got = reader::reps(step, Rd::start(off as int), n as nat);
        match r {
            Ok(v) => got.1.err is None && v@ == got.0,
            Err(e) => got.1.err == Some(e@),
        }
    }

    /// The stream at `offset`; a null pointer stands for no instructions.
    fn stream(&self, offset: u64) -> (r: Result<ActionStream, Error>)
        ensures
            forall|c: Rd|
                c.err is None ==> match r {
                    Ok(s) => #[trigger] decode::stream(self.ctx(), c, offset) == (s@, c),
                    Err(e) => decode::stream(self.ctx(), c, offset).1.err == Some(e@),
                },
    {
        if offset == 0 {
            let s = ActionStream::default();
            return Ok(s);
        }
        actions::decode_stream(&self.cur, offset, self.consts)
    }

    /// `n` 4-byte numbers at `off`.
    fn u32s(&self, off: u64, n: u64) -> (r: Result<Vec<u32>, Error>)
        ensures
            self.plain_list_read(r, parsing::u32_step(self.cur.src()), off, n),
    {
        let ghost step = parsing::u32_step(self.cur.src());
        let ghost first = Rd::start(off as int);
        let mut c = self.cur.at(off);
        let mut got: Vec<u32> = Vec::new();
        let mut i: u64 = 0;
        proof {
            assert forall|d: Rd| d.err is Some implies (#[trigger] step(d)).1 == d by {}
        }
        while i < n
            invariant
                i <= n,
                c.src() == self.cur.src(),
                step == parsing::u32_step(self.cur.src()),
                first == Rd::start(off as int),
                reader::sticky(step),
                reader::reps(step, first, i as nat) == (got@, c.rd()),
            decreases n - i,
        {
            let item = match c.u32() {
                Ok(item) => item,
                Err(e) => {
                    proof {
                        reader::lemma_reps_sticky(step, first, (i + 1) as nat, n as nat);
                    }
                    return Err(e);
                },
            };
            got.push(item);
            i = i + 1;
        }
        Ok(got)
    }

    /// `n` bytes at `off`.
    fn u8s(&self, off: u64, n: u64) -> (r: Result<Vec<u8>, Error>)
        ensures
            self.plain_list_read(r, parsing::u8_step(self.cur.src()), off, n),
    {
        let ghost step = parsing::u8_step(self.cur.src());
        let ghost first = Rd::start(off as int);
        let mut c = self.cur.at(off);
        let mut got: Vec<u8> = Vec::new();
        let mut i: u64 = 0;
        proof {
            assert forall|d: Rd| d.err is Some implies (#[trigger] step(d)).1 == d by {}
        }
        while i < n
            invariant
                i <= n,
                c.src() == self.cur.src(),
                step == parsing::u8_step(self.cur.src()),
                first == Rd::start(off as int),
                reader::sticky(step),
                reader::reps(step, first, i as nat) == (got@, c.rd()),
            decreases n - i,
        {
            let item = match c.u8() {
                Ok(item) => item,
                Err(e) => {
                    proof {
                        reader::lemma_reps_sticky(step, first, (i + 1) as nat, n as nat);
                    }
                    return Err(e);
                },
            };
            got.push(item);
            i = i + 1;
        }
        Ok(got)
    }

    /// `n` pointer-width slots with 4-byte numbers at `off`.
    fn indices(&self, off: u64, n: u64) -> (r: Result<Vec<u32>, Error>)
        ensures
            self.plain_list_read(r, parsing::index_step(self.cur.src()), off, n),
    {
        let ghost step = parsing::index_step(self.cur.src());
        let ghost first = Rd::start(off as int);
        let mut c = self.cur.at(off);
        let mut got: Vec<u32> = Vec::new();
        let mut i: u64 = 0;
        proof {
            assert forall|d: Rd| d.err is Some implies (#[trigger] step(d)).1 == d by {}
        }
        while i < n
            invariant
                i <= n,
                c.src() == self.cur.src(),
                step == parsing::index_step(self.cur.src()),
                first == Rd::start(off as int),
                reader::sticky(step),
                reader::reps(step, first, i as nat) == (got@, c.rd()),
            decreases n - i,
        {
            let item = match index_slot(&mut c) {
                Ok(item) => item,
                Err(e) => {
                    proof {
                        reader::lemma_reps_sticky(step, first, (i + 1) as nat, n as nat);
                    }
                    return Err(e);
                },
            };
            got.push(item);
            i = i + 1;
        }
        Ok(got)
    }

    /// `n` vertices at `off`.
    fn vertices(&self, off: u64, n: u64) -> (r: Result<Vec<(u32, u32)>, Error>)
        ensures
            self.plain_list_read(r, parsing::vertex_step(self.cur.src()), off, n),
    {
        let ghost step = parsing::vertex_step(self.cur.src());
        let ghost first = Rd::start(off as int);
        let mut c = self.cur.at(off);
        let mut got: Vec<(u32, u32)> = Vec::new();
        let mut i: u64 = 0;
        proof {
            assert forall|d: Rd| d.err is Some implies (#[trigger] step(d)).1 == d by {}
        }
        while i < n
            invariant
                i <= n,
                c.src() == self.cur.src(),
                step == parsing::vertex_step(self.cur.src()),
                first == Rd::start(off as int),
                reader::sticky(step),
                reader::reps(step, first, i as nat) == (got@, c.rd()),
            decreases n - i,
        {
            let item = match vertex(&mut c) {
                Ok(item) => item,
                Err(e) => {
                    proof {
                        reader::lemma_reps_sticky(step, first, (i + 1) as nat, n as nat);
                    }
                    return Err(e);
                },
            };
            got.push(item);
            i = i + 1;
        }
        Ok(got)
    }

    /// `n` glyphs at `off`.
    fn glyphs(&self, off: u64, n: u64) -> (r: Result<Vec<GlyphEntry>, Error>)
        ensures
            self.plain_list_read(r, parsing::glyph_step(self.cur.src()), off, n),
    {
        let ghost step = parsing::glyph_step(self.cur.src());
        let ghost first = Rd::start(off as int);
        let mut c = self.cur.at(off);
        let mut got: Vec<GlyphEntry> = Vec::new();
        let mut i: u64 = 0;
        proof {
            assert forall|d: Rd| d.err is Some implies (#[trigger] step(d)).1 == d by {}
        }
        while i < n
            invariant
                i <= n,
                c.src() == self.cur.src(),
                step == parsing::glyph_step(self.cur.src()),
                first == Rd::start(off as int),
                reader::sticky(step),
                reader::reps(step, first, i as nat) == (got@, c.rd()),
            decreases n - i,
        {
            let item = match glyph_entry(&mut c) {
                Ok(item) => item,
                Err(e) => {
                    proof {
                        reader::lemma_reps_sticky(step, first, (i + 1) as nat, n as nat);
                    }
                    return Err(e);
                },
            };
            got.push(item);
            i = i + 1;
        }
        Ok(got)
    }

    /// `n` triangles at `off`.
    fn triangles(&self, off: u64, n: u64) -> (r: Result<Vec<[i16; 3]>, Error>)
        ensures
            self.list_read(r, parsing::triangle_step(self.cur.src()), off, n),
    {
        broadcast use model::lemma_views_push;

        let ghost step = parsing::triangle_step(self.cur.src());
        let ghost first = Rd::start(off as int);
        let mut c = self.cur.at(off);
        let mut got: Vec<[i16; 3]> = Vec::new();
        let mut i: u64 = 0;
        proof {
            assert forall|d: Rd| d.err is Some implies (#[trigger] step(d)).1 == d by {}
            model::lemma_views_empty::<[i16; 3]>();
        }
        while i < n
            invariant
                i <= n,
                c.src() == self.cur.src(),
                step == parsing::triangle_step(self.cur.src()),
                first == Rd::start(off as int),
                reader::sticky(step),
                reader::reps(step, first, i as nat) == (model::views(got@), c.rd()),
            decreases n - i,
        {
            let item = match triangle(&mut c) {
                Ok(item) => item,
                Err(e) => {
                    proof {
                        reader::lemma_reps_sticky(step, first, (i + 1) as nat, n as nat);
                    }
                    return Err(e);
                },
            };
            got.push(item);
            i = i + 1;
        }
        Ok(got)
    }

    /// `n` button records at `off`.
    fn button_records(&self, off: u64, n: u64) -> (r: Result<Vec<ButtonRecord>, Error>)
        ensures
            self.list_read(r, parsing::record_step(self.cur.src()), off, n),
    {
        broadcast use model::lemma_views_push;

        let ghost step = parsing::record_step(self.cur.src());
        let ghost first = Rd::start(off as int);
        let mut c = self.cur.at(off);
        let mut got: Vec<ButtonRecord> = Vec::new();
        let mut i: u64 = 0;
        proof {
            assert forall|d: Rd| d.err is Some implies (#[trigger] step(d)).1 == d by {}
            model::lemma_views_empty::<ButtonRecord>();
        }
        while i < n
            invariant
                i <= n,
                c.src() == self.cur.src(),
                step == parsing::record_step(self.cur.src()),
                first == Rd::start(off as int),
                reader::sticky(step),
                reader::reps(step, first, i as nat) == (model::views(got@), c.rd()),
            decreases n - i,
        {
            let item = match button_record(&mut c) {
                Ok(item) => item,
                Err(e) => {
                    proof {
                        reader::lemma_reps_sticky(step, first, (i + 1) as nat, n as nat);
                    }
                    return Err(e);
                },
            };
            got.push(item);
            i = i + 1;
        }
        Ok(got)
    }

    /// `n` imports at `off`.
    fn imports(&self, off: u64, n: u64) -> (r: Result<Vec<Import>, Error>)
        ensures
            self.list_read(r, parsing::import_step(self.cur.src()), off, n),
    {
        broadcast use model::lemma_views_push;

        let ghost step = parsing::import_step(self.cur.src());
        let ghost first = Rd::start(off as int);
        let mut c = self.cur.at(off);
        let mut got: Vec<Import> = Vec::new();
        let mut i: u64 = 0;
        proof {
            assert forall|d: Rd| d.err is Some implies (#[trigger] step(d)).1 == d by {}
            model::lemma_views_empty::<Import>();
        }
        while i < n
            invariant
                i <= n,
                c.src() == self.cur.src(),
                step == parsing::import_step(self.cur.src()),
                first == Rd::start(off as int),
                reader::sticky(step),
                reader::reps(step, first, i as nat) == (model::views(got@), c.rd()),
            decreases n - i,
        {
            let item = match import(&mut c) {
                Ok(item) => item,
                Err(e) => {
                    proof {
                        reader::lemma_reps_sticky(step, first, (i + 1) as nat, n as nat);
                    }
                    return Err(e);
                },
            };
            got.push(item);
            i = i + 1;
        }
        Ok(got)
    }

    /// `n` exports at `off`.
    fn exports(&self, off: u64, n: u64) -> (r: Result<Vec<Export>, Error>)
        ensures
            self.list_read(r, parsing::export_step(self.cur.src()), off, n),
    {
        broadcast use model::lemma_views_push;

        let ghost step = parsing::export_step(self.cur.src());
        let ghost first = Rd::start(off as int);
        let mut c = self.cur.at(off);
        let mut got: Vec<Export> = Vec::new();
        let mut i: u64 = 0;
        proof {
            assert forall|d: Rd| d.err is Some implies (#[trigger] step(d)).1 == d by {}
            model::lemma_views_empty::<Export>();
        }
        while i < n
            invariant
                i <= n,
                c.src() == self.cur.src(),
                step == parsing::export_step(self.cur.src()),
                first == Rd::start(off as int),
                reader::sticky(step),
                reader::reps(step, first, i as nat) == (model::views(got@), c.rd()),
            decreases n - i,
        {
            let item = match export(&mut c) {
                Ok(item) => item,
                Err(e) => {
                    proof {
                        reader::lemma_reps_sticky(step, first, (i + 1) as nat, n as nat);
                    }
                    return Err(e);
                },
            };
            got.push(item);
            i = i + 1;
        }
        Ok(got)
    }

    /// A clip event handler.
    fn event_action(&self, c: &mut Cursor) -> (r: Result<EventAction, Error>)
        requires
            old(c).src() == self.cur.src(),
        ensures
            final(c).data == old(c).data,
            final(c).ptr_size == old(c).ptr_size,
            reader::reads_view(r, parsing::event_action(self.ctx(), old(c).rd()), final(c).pos as int),
    {
        c.align_ptr();
        let triggers: i32 = c.i32()?;
        let key_code: i32 = c.i32()?;
        let stream_off: u64 = c.ptr()?;
        assert(c.rd().err is None);
        let actions = self.stream(stream_off)?;
        Ok(EventAction { triggers, key_code, actions })
    }

    /// `n` clip event handlers at `off`.
    fn event_actions(&self, off: u64, n: u64) -> (r: Result<Vec<EventAction>, Error>)
        ensures
            self.list_read(r, parsing::event_step(self.ctx()), off, n),
    {
        broadcast use model::lemma_views_push;

        let ghost step = parsing::event_step(self.ctx());
        let ghost first = Rd::start(off as int);
        let mut c = self.cur.at(off);
        let mut got: Vec<EventAction> = Vec::new();
        let mut i: u64 = 0;
        proof {
            assert forall|d: Rd| d.err is Some implies (#[trigger] step(d)).1 == d by {}
            model::lemma_views_empty::<EventAction>();
        }
        while i < n
            invariant
                i <= n,
                c.src() == self.cur.src(),
                step == parsing::event_step(self.ctx()),
                first == Rd::start(off as int),
                reader::sticky(step),
                reader::reps(step, first, i as nat) == (model::views(got@), c.rd()),
            decreases n - i,
        {
            let item = match self.event_action(&mut c) {
                Ok(item) => item,
                Err(e) => {
                    proof {
                        reader::lemma_reps_sticky(step, first, (i + 1) as nat, n as nat);
                    }
                    return Err(e);
                },
            };
            got.push(item);
            i = i + 1;
        }
        Ok(got)
    }

    /// A button action.
    fn button_action(&self, c: &mut Cursor) -> (r: Result<ButtonAction, Error>)
        requires
            old(c).src() == self.cur.src(),
        ensures
            final(c).data == old(c).data,
            final(c).ptr_size == old(c).ptr_size,
            reader::reads_view(r, parsing::button_action(self.ctx(), old(c).rd()), final(c).pos as int),
    {
        c.align_ptr();
        let conditions: i32 = c.i32()?;
        let stream_off: u64 = c.ptr()?;
        let actions = self.stream(stream_off)?;
        Ok(ButtonAction { conditions, actions })
    }

    /// `n` button actions at `off`.
    fn button_actions(&self, off: u64, n: u64) -> (r: Result<Vec<ButtonAction>, Error>)
        ensures
            self.list_read(r, parsing::action_step(self.ctx()), off, n),
    {
        broadcast use model::lemma_views_push;

        let ghost step = parsing::action_step(self.ctx());
        let ghost first = Rd::start(off as int);
        let mut c = self.cur.at(off);
        let mut got: Vec<ButtonAction> = Vec::new();
        let mut i: u64 = 0;
        proof {
            assert forall|d: Rd| d.err is Some implies (#[trigger] step(d)).1 == d by {}
            model::lemma_views_empty::<ButtonAction>();
        }
        while i < n
            invariant
                i <= n,
                c.src() == self.cur.src(),
                step == parsing::action_step(self.ctx()),
                first == Rd::start(off as int),
                reader::sticky(step),
                reader::reps(step, first, i as nat) == (model::views(got@), c.rd()),
            decreases n - i,
        {
            let item = match self.button_action(&mut c) {
                Ok(item) => item,
                Err(e) => {
                    proof {
                        reader::lemma_reps_sticky(step, first, (i + 1) as nat, n as nat);
                    }
                    return Err(e);
                },
            };
            got.push(item);
            i = i + 1;
        }
        Ok(got)
    }

    /// A run of static text.
    fn text_record(&self, c: &mut Cursor) -> (r: Result<StaticTextRecord, Error>)
        requires
            old(c).src() == self.cur.src(),
        ensures
            final(c).data == old(c).data,
            final(c).ptr_size == old(c).ptr_size,
            reader::reads_view(r, parsing::text_record(self.cur.src(), old(c).rd()), final(c).pos as int),
    {
        c.align_ptr();
        let font_id: i32 = c.i32()?;
        let cxform = float_cxform(c)?;
        let x_offset: u32 = c.u32()?;
        let y_offset: u32 = c.u32()?;
        let scale: u32 = c.u32()?;
        let n_glyphs: i32 = c.i32()?;
        let glyphs_off: u64 = c.ptr()?;
        let glyphs = self.glyphs(glyphs_off, items(n_glyphs))?;
        Ok(StaticTextRecord { font_id, cxform, x_offset, y_offset, scale, glyphs })
    }

    /// `n` runs of static text at `off`.
    fn text_records(&self, off: u64, n: u64) -> (r: Result<Vec<StaticTextRecord>, Error>)
        ensures
            self.list_read(r, parsing::text_step(self.cur.src()), off, n),
    {
        broadcast use model::lemma_views_push;

        let ghost step = parsing::text_step(self.cur.src());
        let ghost first = Rd::start(off as int);
        let mut c = self.cur.at(off);
        let mut got: Vec<StaticTextRecord> = Vec::new();
        let mut i: u64 = 0;
        proof {
            assert forall|d: Rd| d.err is Some implies (#[trigger] step(d)).1 == d by {}
            model::lemma_views_empty::<StaticTextRecord>();
        }
        while i < n
            invariant
                i <= n,
                c.src() == self.cur.src(),
                step == parsing::text_step(self.cur.src()),
                first == Rd::start(off as int),
                reader::sticky(step),
                reader::reps(step, first, i as nat) == (model::views(got@), c.rd()),
            decreases n - i,
        {
            let item = match self.text_record(&mut c) {
                Ok(item) => item,
                Err(e) => {
                    proof {
                        reader::lemma_reps_sticky(step, first, (i + 1) as nat, n as nat);
                    }
                    return Err(e);
                },
            };
            got.push(item);
            i = i + 1;
        }
        Ok(got)
    }

    fn drop_shadow(c: &mut Cursor) -> (r: Result<Filter, Error>)
        ensures
            reader::gives(r, parsing::drop_shadow(old(c).src(), old(c).rd())),
    {
        let color: u32 = c.u32()?;
        let blur_x: u32 = c.u32()?;
        let blur_y: u32 = c.u32()?;
        let angle: u32 = c.u32()?;
        let distance: u32 = c.u32()?;
        let strength: u16 = c.u16()?;
        let flags: u16 = c.u16()?;
        Ok(Filter::DropShadow { color, blur_x, blur_y, angle, distance, strength, flags })
    }

    fn blur(c: &mut Cursor) -> (r: Result<Filter, Error>)
        ensures
            reader::gives(r, parsing::blur(old(c).src(), old(c).rd())),
    {
        let blur_x: u32 = c.u32()?;
        let blur_y: u32 = c.u32()?;
        let flags: u16 = c.u16()?;
        Ok(Filter::Blur { blur_x, blur_y, flags })
    }

    fn glow(c: &mut Cursor) -> (r: Result<Filter, Error>)
        ensures
            reader::gives(r, parsing::glow(old(c).src(), old(c).rd())),
    {
        let color: u32 = c.u32()?;
        let blur_x: u32 = c.u32()?;
        let blur_y: u32 = c.u32()?;
        let strength: u16 = c.u16()?;
        let flags: u16 = c.u16()?;
        Ok(Filter::Glow { color, blur_x, blur_y, strength, flags })
    }

    fn bevel(c: &mut Cursor) -> (r: Result<Filter, Error>)
        ensures
            reader::gives(r, parsing::bevel(old(c).src(), old(c).rd())),
    {
        let highlight_color: u32 = c.u32()?;
        let shadow_color: u32 = c.u32()?;
        let blur_x: u32 = c.u32()?;
        let blur_y: u32 = c.u32()?;
        let angle: u32 = c.u32()?;
        let distance: u32 = c.u32()?;
        let strength: u16 = c.u16()?;
        let flags: u16 = c.u16()?;
        Ok(Filter::Bevel { highlight_color, shadow_color, blur_x, blur_y, angle, distance, strength, flags })
    }

    fn gradient(&self, c: &mut Cursor, is_bevel: bool) -> (r: Result<Filter, Error>)
        requires
            old(c).src() == self.cur.src(),
        ensures
            reader::gives(r, parsing::gradient(old(c).src(), old(c).rd(), is_bevel)),
    {
        let n: u32 = c.u32()?;
        let colors_off: u64 = c.ptr()?;
        let ratios_off: u64 = c.ptr()?;
        let blur_x: u32 = c.u32()?;
        let blur_y: u32 = c.u32()?;
        let angle: u32 = c.u32()?;
        let distance: u32 = c.u32()?;
        let strength: u16 = c.u16()?;
        let flags: u16 = c.u16()?;
        let colors = self.u32s(colors_off, n as u64)?;
        let ratios = self.u8s(ratios_off, n as u64)?;
        Ok(
            Filter::GradientGlow {
                is_bevel,
                colors,
                ratios,
                blur_x,
                blur_y,
                angle,
                distance,
                strength,
                flags,
            },
        )
    }

    fn color_matrix(&self, c: &mut Cursor) -> (r: Result<Filter, Error>)
        requires
            old(c).src() == self.cur.src(),
        ensures
            reader::gives(r, parsing::color_matrix(old(c).src(), old(c).rd())),
    {
        let v = self.u32s(c.pos, 20)?;
        proof {
            reader::lemma_reps_len(parsing::u32_step(self.cur.src()), c.rd(), 20);
        }
        let values = [
            v[0], v[1], v[2], v[3], v[4], v[5], v[6], v[7], v[8], v[9],
            v[10], v[11], v[12], v[13], v[14], v[15], v[16], v[17], v[18], v[19],
        ];
        assert(values@ =~= v@);
        Ok(Filter::ColorMatrix { values })
    }

    fn parse_filter(&self, offset: u64) -> (r: Result<Filter, Error>)
        ensures
            reader::gives(r, parsing::filter(self.cur.src(), Rd::start(offset as int))),
    {
        reveal(parsing::filter);
        let mut c = self.cur.at(offset);
        let id: u32 = c.u32()?;
        match id {
            0 => Self::drop_shadow(&mut c),
            1 => Self::blur(&mut c),
            2 => Self::glow(&mut c),
            3 => Self::bevel(&mut c),
            4 => self.gradient(&mut c, false),
            7 => self.gradient(&mut c, true),
            6 => self.color_matrix(&mut c),
            id => Err(Error::InvalidFilterId(id)),
        }
    }

    /// A pointer to a filter.
    fn filter_slot(&self, c: &mut Cursor) -> (r: Result<Filter, Error>)
        requires
            old(c).src() == self.cur.src(),
        ensures
            final(c).data == old(c).data,
            final(c).ptr_size == old(c).ptr_size,
            reader::reads_view(r, parsing::filter_slot(self.cur.src(), old(c).rd()), final(c).pos as int),
    {
        let off: u64 = c.ptr()?;
        self.parse_filter(off)
    }

    /// `n` pointers to filters at `off`.
    fn filters(&self, off: u64, n: u64) -> (r: Result<Vec<Filter>, Error>)
        ensures
            self.list_read(r, parsing::filter_step(self.cur.src()), off, n),
    {
        broadcast use model::lemma_views_push;

        let ghost step = parsing::filter_step(self.cur.src());
        let ghost first = Rd::start(off as int);
        let mut c = self.cur.at(off);
        let mut got: Vec<Filter> = Vec::new();
        let mut i: u64 = 0;
        proof {
            assert forall|d: Rd| d.err is Some implies (#[trigger] step(d)).1 == d by {
                reveal(parsing::filter);
            }
            model::lemma_views_empty::<Filter>();
        }
        while i < n
            invariant
                i <= n,
                c.src() == self.cur.src(),
                step == parsing::filter_step(self.cur.src()),
                first == Rd::start(off as int),
                reader::sticky(step),
                reader::reps(step, first, i as nat) == (model::views(got@), c.rd()),
            decreases n - i,
        {
            let item = match self.filter_slot(&mut c) {
                Ok(item) => item,
                Err(e) => {
                    proof {
                        reader::lemma_reps_sticky(step, first, (i + 1) as nat, n as nat);
                    }
                    return Err(e);
                },
            };
            got.push(item);
            i = i + 1;
        }
        Ok(got)
    }

    /// The set of clip event handlers at `off`, where `flags` announce one.
    fn clip_actions(&self, flags: i32, off: u64) -> (r: Result<Option<Vec<EventAction>>, Error>)
        ensures
            forall|c: Rd|
                c.err is None ==> match r {
                    Ok(Some(v)) => #[trigger] parsing::clip_actions(self.ctx(), c, flags, off) == (
                        Some(model::views(v@)),
                        c,
                    ),
                    Ok(None) => parsing::clip_actions(self.ctx(), c, flags, off) == (
                        None::<Seq<model::EventAction>>,
                        c,
                    ),
                    Err(e) => parsing::clip_actions(self.ctx(), c, flags, off).1.err == Some(e@),
                },
    {
        if flags & 0x80 != 0 && off != 0 {
            let mut sc = self.cur.at(off);
            let n: i32 = sc.i32()?;
            let blocks_off: u64 = sc.ptr()?;
            let blocks = self.event_actions(blocks_off, items(n))?;
            Ok(Some(blocks))
        } else {
            Ok(None)
        }
    }

    /// The fixed part of a placement.
    fn place_head(c: &mut Cursor) -> (r: Result<PlaceHead, Error>)
        ensures
            final(c).data == old(c).data,
            final(c).ptr_size == old(c).ptr_size,
            reader::reads(r, parsing::place_head(old(c).src(), old(c).rd()), final(c).pos as int),
    {
        reveal(parsing::place_head);
        let flags: i32 = c.i32()?;
        let depth: i32 = c.i32()?;
        let character_id: i32 = c.i32()?;
        let mat = matrix(c)?;
        let scale: u32 = c.u32()?;
        let bias: u32 = c.u32()?;
        let ratio: u32 = c.u32()?;
        let name: u64 = c.ptr()?;
        let clip_depth: i32 = c.i32()?;
        let actions: u64 = c.ptr()?;
        Ok(
            PlaceHead {
                flags,
                depth,
                character_id,
                matrix: mat,
                scale,
                bias,
                ratio,
                name,
                clip_depth,
                actions,
            },
        )
    }

    /// A placement.
    fn place_object(&self, c: &mut Cursor, extended: bool) -> (r: Result<PlaceObject, Error>)
        requires
            old(c).src() == self.cur.src(),
        ensures
            reader::gives(r, parsing::place_object(self.ctx(), old(c).rd(), extended)),
    {
        reveal(parsing::place_object);
        let h = Self::place_head(c)?;
        let flags: i32 = h.flags;
        let clip_actions = self.clip_actions(flags, h.actions)?;
        let mut blend_mode: Option<i32> = None;
        let mut filters: Vec<Filter> = Vec::new();
        proof {
            model::lemma_views_empty::<Filter>();
        }
        if extended {
            let mode: i32 = c.i32()?;
            let n_filters: u32 = c.u32()?;
            let filters_off: u64 = c.ptr()?;
            filters = self.filters(filters_off, n_filters as u64)?;
            if mode != -1 {
                blend_mode = Some(mode);
            }
        }
        let name = if flags & 0x20 != 0 && h.name != 0 {
            Some(self.cur.string_at(h.name)?)
        } else {
            None
        };
        Ok(
            PlaceObject {
                is_move: flags & 0x01 != 0,
                depth: h.depth,
                character_id: if flags & 0x02 != 0 {
                    Some(h.character_id)
                } else {
                    None
                },
                matrix: if flags & 0x04 != 0 {
                    Some(h.matrix)
                } else {
                    None
                },
                cxform: if flags & 0x08 != 0 {
                    Some(PackedCxForm { scale: h.scale, bias: h.bias })
                } else {
                    None
                },
                ratio: if flags & 0x10 != 0 {
                    Some(h.ratio)
                } else {
                    None
                },
                name,
                clip_depth: if flags & 0x40 != 0 {
                    Some(h.clip_depth)
                } else {
                    None
                },
                clip_actions,
                blend_mode,
                filters,
            },
        )
    }

    fn parse_control(&self, offset: u64) -> (r: Result<Control, Error>)
        ensures
            reader::gives(r, parsing::control(self.ctx(), Rd::start(offset as int))),
    {
        reveal(parsing::control);
        let mut c = self.cur.at(offset);
        let type_id: i32 = c.i32()?;
        c.align_ptr();
        match type_id {
            1 => {
                let off: u64 = c.ptr()?;
                let s = self.stream(off)?;
                Ok(Control::Action(s))
            },
            2 => Ok(Control::FrameLabel(c.ptr_string()?)),
            3 => Ok(Control::PlaceObject(self.place_object(&mut c, false)?)),
            9 => Ok(Control::PlaceObject(self.place_object(&mut c, true)?)),
            4 => {
                let depth: i32 = c.i32()?;
                Ok(Control::RemoveObject { depth })
            },
            5 => {
                let color: u32 = c.u32()?;
                Ok(Control::BackgroundColor(color))
            },
            6 => {
                let sound_id: i32 = c.i32()?;
                Ok(Control::StartSound { sound_id })
            },
            7 => {
                let sound_id: i32 = c.i32()?;
                Ok(Control::StartSoundStream { sound_id })
            },
            8 => {
                let sprite_id: i32 = c.i32()?;
                let off: u64 = c.ptr()?;
                let actions = self.stream(off)?;
                Ok(Control::InitAction { sprite_id, actions })
            },
            t => Err(Error::InvalidControlType(t)),
        }
    }

    /// A pointer to a control.
    fn control_slot(&self, c: &mut Cursor) -> (r: Result<Control, Error>)
        requires
            old(c).src() == self.cur.src(),
        ensures
            final(c).data == old(c).data,
            final(c).ptr_size == old(c).ptr_size,
            reader::reads_view(r, parsing::control_slot(self.ctx(), old(c).rd()), final(c).pos as int),
    {
        let off: u64 = c.ptr()?;
        self.parse_control(off)
    }

    /// `n` pointers to controls at `off`.
    fn controls(&self, off: u64, n: u64) -> (r: Result<Vec<Control>, Error>)
        ensures
            self.list_read(r, parsing::control_step(self.ctx()), off, n),
    {
        broadcast use model::lemma_views_push;

        let ghost step = parsing::control_step(self.ctx());
        let ghost first = Rd::start(off as int);
        let mut c = self.cur.at(off);
        let mut got: Vec<Control> = Vec::new();
        let mut i: u64 = 0;
        proof {
            assert forall|d: Rd| d.err is Some implies (#[trigger] step(d)).1 == d by {
                reveal(parsing::control);
            }
            model::lemma_views_empty::<Control>();
        }
        while i < n
            invariant
                i <= n,
                c.src() == self.cur.src(),
                step == parsing::control_step(self.ctx()),
                first == Rd::start(off as int),
                reader::sticky(step),
                reader::reps(step, first, i as nat) == (model::views(got@), c.rd()),
            decreases n - i,
        {
            let item = match self.control_slot(&mut c) {
                Ok(item) => item,
                Err(e) => {
                    proof {
                        reader::lemma_reps_sticky(step, first, (i + 1) as nat, n as nat);
                    }
                    return Err(e);
                },
            };
            got.push(item);
            i = i + 1;
        }
        Ok(got)
    }

    /// A frame.
    fn frame(&self, c: &mut Cursor) -> (r: Result<Frame, Error>)
        requires
            old(c).src() == self.cur.src(),
        ensures
            final(c).data == old(c).data,
            final(c).ptr_size == old(c).ptr_size,
            reader::reads_view(r, parsing::frame(self.ctx(), old(c).rd()), final(c).pos as int),
    {
        c.align_ptr();
        let n_controls: i32 = c.i32()?;
        let controls_off: u64 = c.ptr()?;
        let controls = self.controls(controls_off, items(n_controls))?;
        Ok(Frame { controls })
    }

    /// `n` frames at `off`.
    fn frame_list(&self, off: u64, n: u64) -> (r: Result<Vec<Frame>, Error>)
        ensures
            self.list_read(r, parsing::frame_step(self.ctx()), off, n),
    {
        broadcast use model::lemma_views_push;

        let ghost step = parsing::frame_step(self.ctx());
        let ghost first = Rd::start(off as int);
        let mut c = self.cur.at(off);
        let mut got: Vec<Frame> = Vec::new();
        let mut i: u64 = 0;
        proof {
            assert forall|d: Rd| d.err is Some implies (#[trigger] step(d)).1 == d by {}
            model::lemma_views_empty::<Frame>();
        }
        while i < n
            invariant
                i <= n,
                c.src() == self.cur.src(),
                step == parsing::frame_step(self.ctx()),
                first == Rd::start(off as int),
                reader::sticky(step),
                reader::reps(step, first, i as nat) == (model::views(got@), c.rd()),
            decreases n - i,
        {
            let item = match self.frame(&mut c) {
                Ok(item) => item,
                Err(e) => {
                    proof {
                        reader::lemma_reps_sticky(step, first, (i + 1) as nat, n as nat);
                    }
                    return Err(e);
                },
            };
            got.push(item);
            i = i + 1;
        }
        Ok(got)
    }

    fn parse_frames(&self, offset: u64, count: i32) -> (r: Result<Vec<Frame>, Error>)
        ensures
            forall|c: Rd|
                c.err is None ==> match r {
                    Ok(v) => {
                        &&& (#[trigger] parsing::frames(self.ctx(), c, offset, count)).0
                            == model::views(v@)
                        &&& parsing::frames(self.ctx(), c, offset, count).1.err is None
                    },
                    Err(e) => parsing::frames(self.ctx(), c, offset, count).1.err == Some(e@),
                },
    {
        let r = self.frame_list(offset, items(count));
        proof {
            assert forall|c: Rd| c.err is None implies #[trigger] parsing::frames(
                self.ctx(),
                c,
                offset,
                count,
            ) == reader::reps(
                parsing::frame_step(self.ctx()),
                Rd::start(offset as int),
                reader::items(count),
            ) by {
                assert(c.at(offset as int) == Rd::start(offset as int));
            }
        }
        r
    }

    fn parse_button(&self, c: &mut Cursor) -> (r: Result<Button, Error>)
        requires
            old(c).src() == self.cur.src(),
        ensures
            reader::gives(r, parsing::button(self.ctx(), old(c).rd())),
    {
        reveal(parsing::button);
        let menu: i32 = c.i32()?;
        let hit_test_bounds = rect(c)?;
        let n_triangles: i32 = c.i32()?;
        let n_vertices: i32 = c.i32()?;
        let vertices_off: u64 = c.ptr()?;
        let indices_off: u64 = c.ptr()?;
        let n_records: i32 = c.i32()?;
        let records_off: u64 = c.ptr()?;
        let n_conditions: i32 = c.i32()?;
        let conditions_off: u64 = c.ptr()?;
        let sound_off: u64 = c.ptr()?;
        let hit_test_vertices = self.vertices(vertices_off, items(n_vertices))?;
        let hit_test_triangles = self.triangles(indices_off, items(n_triangles))?;
        let records = self.button_records(records_off, items(n_records))?;
        let actions = self.button_actions(conditions_off, items(n_conditions))?;
        let sounds = if sound_off != 0 {
            let mut sc = self.cur.at(sound_off);
            let over_up_to_idle: u32 = index_slot(&mut sc)?;
            let idle_to_over_up: u32 = index_slot(&mut sc)?;
            let over_up_to_over_down: u32 = index_slot(&mut sc)?;
            let over_down_to_over_up: u32 = index_slot(&mut sc)?;
            Some(
                ButtonSounds {
                    over_up_to_idle,
                    idle_to_over_up,
                    over_up_to_over_down,
                    over_down_to_over_up,
                },
            )
        } else {
            None
        };
        Ok(
            Button {
                is_menu: menu != 0,
                hit_test_bounds,
                hit_test_vertices,
                hit_test_triangles,
                records,
                actions,
                sounds,
            },
        )
    }

    /// The prelude of a character: its type and the decoupled data word (0 in
    /// non-decoupled files).
    fn char_header(&self, c: &mut Cursor) -> (r: Result<(i32, u32), Error>)
        requires
            old(c).src() == self.cur.src(),
        ensures
            final(c).data == old(c).data,
            final(c).ptr_size == old(c).ptr_size,
            reader::reads(
                r,
                parsing::char_header(self.px(), old(c).rd()),
                final(c).pos as int,
            ),
    {
        let type_id: i32 = c.i32()?;
        c.ptr()?;  // pParentAnim: magic 0x09876543
        let mut decoupled_data: u32 = 0;
        if self.decoupled {
            decoupled_data = c.u32()?;
            c.ptr()?;  // m_pAnimFile: dead in file
        }
        Ok((type_id, decoupled_data))
    }

    fn font(&self, c: &mut Cursor) -> (r: Result<Font, Error>)
        requires
            old(c).src() == self.cur.src(),
        ensures
            reader::gives(r, parsing::font(old(c).src(), old(c).rd())),
    {
        let name = c.ptr_string()?;
        let n_glyphs: i32 = c.i32()?;
        let glyphs_off: u64 = c.ptr()?;
        let glyphs = self.indices(glyphs_off, items(n_glyphs))?;
        Ok(Font { name, glyphs })
    }

    fn sprite(&self, c: &mut Cursor) -> (r: Result<Vec<Frame>, Error>)
        requires
            old(c).src() == self.cur.src(),
        ensures
            ({
                let got = parsing::sprite(self.ctx(), old(c).rd());
                match r {
                    Ok(v) => got.1.err is None && model::views(v@) == got.0,
                    Err(e) => got.1.err == Some(e@),
                }
            }),
    {
        let n_frames: i32 = c.i32()?;
        let frames_off: u64 = c.ptr()?;
        c.ptr()?;  // phLabels
        self.parse_frames(frames_off, n_frames)
    }

    fn static_text(&self, c: &mut Cursor) -> (r: Result<StaticText, Error>)
        requires
            old(c).src() == self.cur.src(),
        ensures
            reader::gives(r, parsing::static_text(old(c).src(), old(c).rd())),
    {
        let bounds = rect(c)?;
        let m = matrix(c)?;
        let n_records: i32 = c.i32()?;
        let records_off: u64 = c.ptr()?;
        let records = self.text_records(records_off, items(n_records))?;
        Ok(StaticText { bounds, matrix: m, records })
    }

    fn parse_character(&self, offset: u64) -> (r: Result<Character, Error>)
        ensures
            reader::gives(r, parsing::character(self.px(), Rd::start(offset as int))),
    {
        reveal(parsing::character);
        let mut c = self.cur.at(offset);
        let (type_id, decoupled_data) = self.char_header(&mut c)?;
        match type_id {
            1 => {
                let bounds = rect(&mut c)?;
                let bitmap_character_id = if self.decoupled {
                    Some((decoupled_data & 0x7FFF) as u16)
                } else {
                    None
                };
                Ok(Character::Shape(Shape { bounds, bitmap_character_id }))
            },
            2 => Ok(Character::Text(edit_text(&mut c)?)),
            3 => Ok(Character::Font(self.font(&mut c)?)),
            4 => Ok(Character::Button(self.parse_button(&mut c)?)),
            5 => {
                let frames = self.sprite(&mut c)?;
                Ok(Character::Sprite(Sprite { frames }))
            },
            6 => Ok(Character::Sound),
            7 => Ok(Character::Bitmap),
            8 => {
                let start_character_id: u32 = index_slot(&mut c)?;
                let end_character_id: u32 = index_slot(&mut c)?;
                Ok(Character::Morph(Morph { start_character_id, end_character_id }))
            },
            10 => Ok(Character::StaticText(self.static_text(&mut c)?)),
            11 => Ok(Character::Nothing),
            12 => Ok(Character::Video),
            t => Err(Error::InvalidCharacterType(t)),
        }
    }

    /// The `i`-th character slot of the movie whose root character is at `root`.
    fn char_slot(&self, c: &mut Cursor, root: u64, i: u64) -> (r: Result<CharacterSlot, Error>)
        requires
            old(c).src() == self.cur.src(),
        ensures
            final(c).data == old(c).data,
            final(c).ptr_size == old(c).ptr_size,
            reader::reads_view(
                r,
                parsing::char_slot(self.px(), root, i as nat, old(c).rd()),
                final(c).pos as int,
            ),
    {
        let char_off: u64 = c.ptr()?;
        if char_off == 0 {
            Ok(CharacterSlot::Empty)
        } else if i == 0 || char_off == root {
            Ok(CharacterSlot::Root)
        } else {
            Ok(CharacterSlot::Character(self.parse_character(char_off)?))
        }
    }

    /// The character slots of the movie whose root character is at `root`.
    fn char_slots(&self, root: u64, off: u64, n: u64) -> (r: Result<Vec<CharacterSlot>, Error>)
        ensures
            ({
                let got = parsing::char_slots(self.px(), root, Rd::start(off as int), n as nat);
                match r {
                    Ok(v) => got.1.err is None && model::views(v@) == got.0,
                    Err(e) => got.1.err == Some(e@),
                }
            }),
    {
        broadcast use model::lemma_views_push;

        let ghost first = Rd::start(off as int);
        let mut c = self.cur.at(off);
        let mut got: Vec<CharacterSlot> = Vec::new();
        let mut i: u64 = 0;
        proof {
            model::lemma_views_empty::<CharacterSlot>();
        }
        while i < n
            invariant
                i <= n,
                c.src() == self.cur.src(),
                first == Rd::start(off as int),
                parsing::char_slots(self.px(), root, first, i as nat) == (
                    model::views(got@),
                    c.rd(),
                ),
            decreases n - i,
        {
            let slot = match self.char_slot(&mut c, root, i) {
                Ok(slot) => slot,
                Err(e) => {
                    proof {
                        parsing::lemma_char_slots_sticky(
                            self.px(),
                            root,
                            first,
                            (i + 1) as nat,
                            n as nat,
                        );
                    }
                    return Err(e);
                },
            };
            got.push(slot);
            i = i + 1;
        }
        Ok(got)
    }

    /// What the root character says: counts, offsets and stage.
    #[verifier::rlimit(60)]
    #[verifier::spinoff_prover]
    fn root_head(&self, c: &mut Cursor) -> (r: Result<RootHead, Error>)
        requires
            old(c).src() == self.cur.src(),
        ensures
            reader::reads(r, parsing::root_head(self.px(), old(c).rd()), final(c).pos as int),
    {
        reveal(parsing::root_head);
        let (type_id, _) = self.char_header(c)?;
        if type_id != 9 {
            return Err(Error::RootNotAnimation(type_id));
        }
        // AptCharacterAnimation
        let n_frames: i32 = c.i32()?;
        let frames: u64 = c.ptr()?;
        c.ptr()?;  // phLabels: dead in file
        let n_characters: i32 = c.i32()?;
        let characters: u64 = c.ptr()?;
        let width: u32 = c.u32()?;
        let height: u32 = c.u32()?;
        let ms_per_frame: u32 = c.u32()?;
        let n_imports: i32 = c.i32()?;
        let imports: u64 = c.ptr()?;
        let n_exports: i32 = c.i32()?;
        let exports: u64 = c.ptr()?;
        Ok(
            RootHead {
                n_frames,
                frames,
                n_characters,
                characters,
                width,
                height,
                ms_per_frame,
                n_imports,
                imports,
                n_exports,
                exports,
            },
        )
    }

    fn parse_root(&self, offset: u64) -> (r: Result<Movie, Error>)
        ensures
            reader::gives(r, parsing::root(self.px(), offset)),
    {
        reveal(parsing::root);
        let mut c = self.cur.at(offset);
        let h = self.root_head(&mut c)?;
        let frames = self.parse_frames(h.frames, h.n_frames)?;
        let characters = self.char_slots(offset, h.characters, items(h.n_characters))?;
        let imports = self.imports(h.imports, items(h.n_imports))?;
        let exports = self.exports(h.exports, items(h.n_exports))?;
        Ok(
            Movie {
                frames,
                characters,
                width: h.width,
                height: h.height,
                ms_per_frame: h.ms_per_frame,
                imports,
                exports,
            },
        )
    }
}

/// Parse an APT movie from raw `.apt` and `.const` bytes.
pub fn parse(apt_data: &[u8], const_data: &[u8]) -> (r: Result<AptFile, Error>)
    ensures
        match r {
            Ok(f) => parsing::apt_file(apt_data@, const_data@) == Ok::<
                model::AptFile,
                model::Error,
            >(f@),
            Err(e) => parsing::apt_file(apt_data@, const_data@) == Err::<
                model::AptFile,
                model::Error,
            >(e@),
        },
{
    let header = parse_header(apt_data)?;
    let const_file = ConstFile::read(const_data, header.ptr_size)?;
    let p = Parser {
        cur: Cursor::new(apt_data, header.ptr_size),
        consts: const_file.constants.as_slice(),
        decoupled: header.decoupled,
    };
    let movie = p.parse_root(const_file.main_character_offset)?;
    Ok(AptFile { header, const_magic: const_file.magic, movie })
}

} // verus!
