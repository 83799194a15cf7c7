//! The `.const` file: a 20-byte magic, the entry-point offset into the `.apt`
//! blob, and the constant table referenced by Push items.
use super::error::Error;
use super::flush;
use super::io::{joined, Arena, Cursor, Deferred};
use super::layout;
use super::model;
use super::out::{self, Out};
use super::reader::{self, Rd, Src};
use super::types::{PtrSize, Value};
use vstd::prelude::*;

verus! {

/// The magic emitted by classic C&C/BFME `swfc` builds: `"Apt constant file"`,
/// 0x1a and two NULs.
pub const CONST_MAGIC: [u8; 20] = [
    0x41,
    0x70,
    0x74,
    0x20,
    0x63,
    0x6f,
    0x6e,
    0x73,
    0x74,
    0x61,
    0x6e,
    0x74,
    0x20,
    0x66,
    0x69,
    0x6c,
    0x65,
    0x1a,
    0,
    0,
];

#[derive(Debug, Clone, PartialEq, Eq)]
pub struct ConstFile {
    /// The 20-byte magic/header block, preserved verbatim for faithful re-emit.
    /// Classic files use `"Apt constant file\\x1a\\0\\0"`; the FIFA-era pipeline
    /// used `"Apt1"` + a 16-byte timestamp.
    pub magic: [u8; 20],
    /// Offset of the root character inside the `.apt` blob.
    pub main_character_offset: u64,
    pub constants: Vec<Value>,
}

impl View for ConstFile {
    type V = model::ConstFile;

    open spec fn view(&self) -> model::ConstFile {
        model::ConstFile {
            magic: self.magic@,
            main_character_offset: self.main_character_offset,
            constants: model::views(self.constants@),
        }
    }
}

// Constant entry type IDs (`AptVirtualFunctionTable_Indices`).
pub const ENTRY_STRING: i32 = 1;
pub const ENTRY_NONE: i32 = 3;
pub const ENTRY_REGISTER: i32 = 4;
pub const ENTRY_BOOLEAN: i32 = 5;
pub const ENTRY_FLOAT: i32 = 6;
pub const ENTRY_INTEGER: i32 = 7;
pub const ENTRY_LOOKUP: i32 = 8;

/// The four payload bytes of a pointer-width slot; the rest of the slot is skipped.
pub open spec fn read_payload(src: Src, c: Rd) -> (u32, Rd) {
    let (v, c) = src.u32(src.align_ptr(c));
    if src.ps == 8 {
        (v, src.u32(c).1)
    } else {
        (v, c)
    }
}

/// One entry of the table.
pub open spec fn read_entry(src: Src, c: Rd) -> (model::Value, Rd) {
    let (t, c) = src.i32(src.align_ptr(c));
    if c.err is Some {
        (model::Value::Undefined, c)
    } else if t == ENTRY_STRING {
        let (off, c) = src.ptr(c);
        let (s, c) = src.string_at(c, off);
        (model::Value::String(s), c)
    } else if t == ENTRY_NONE {
        (model::Value::Undefined, src.ptr(c).1)
    } else if t == ENTRY_REGISTER {
        let (v, c) = read_payload(src, c);
        (model::Value::Register(v as i32), c)
    } else if t == ENTRY_BOOLEAN {
        let (v, c) = read_payload(src, c);
        (model::Value::Boolean(v != 0), c)
    } else if t == ENTRY_FLOAT {
        let (v, c) = read_payload(src, c);
        (model::Value::Float(v), c)
    } else if t == ENTRY_INTEGER {
        let (v, c) = read_payload(src, c);
        (model::Value::Integer(v as i32), c)
    } else if t == ENTRY_LOOKUP {
        let (v, c) = read_payload(src, c);
        (model::Value::Lookup(v), c)
    } else {
        (model::Value::Undefined, c.fail(model::Error::InvalidConstantType(t)))
    }
}

pub open spec fn entry_step(src: Src) -> spec_fn(Rd) -> (model::Value, Rd) {
    |c: Rd| read_entry(src, c)
}

/// A whole constant file.
pub open spec fn read_const(src: Src) -> (model::ConstFile, Rd) {
    let start = if src.len() < 20 {
        Rd::start(0).fail(model::Error::BadConstMagic)
    } else {
        Rd::start(20)
    };
    let (main_character_offset, c) = src.ptr(start);
    let (n, c) = src.i32(c);
    let (table, c) = src.ptr(c);
    let (constants, c) = reader::reps(entry_step(src), c.at(table as int), reader::items(n));
    (model::ConstFile { magic: src.data.take(20), main_character_offset, constants }, c)
}

/// One entry being written.
pub open spec fn write_entry(o: Out, v: model::Value) -> Out {
    let a = o.align_ptr();
    match v {
        model::Value::String(s) => a.put_i32(ENTRY_STRING).text(s),
        model::Value::Undefined => a.put_i32(ENTRY_NONE).ptr_value(0),
        model::Value::Register(v) => a.put_i32(ENTRY_REGISTER).ptr_value((v as u32) as nat),
        model::Value::Boolean(v) => a.put_i32(ENTRY_BOOLEAN).ptr_value(
            if v {
                1
            } else {
                0
            },
        ),
        model::Value::Float(v) => a.put_i32(ENTRY_FLOAT).ptr_value(v as nat),
        model::Value::Integer(v) => a.put_i32(ENTRY_INTEGER).ptr_value((v as u32) as nat),
        model::Value::Lookup(v) => a.put_i32(ENTRY_LOOKUP).ptr_value(v as nat),
    }
}

/// The first `n` entries being written.
pub open spec fn write_entries(o: Out, v: Seq<model::Value>, n: nat) -> Out
    decreases n,
{
    if n == 0 {
        o
    } else {
        write_entry(write_entries(o, v, (n - 1) as nat), v[n - 1])
    }
}

/// `[header][entry table]`, with the strings still to be placed.
pub open spec fn const_layout(f: model::ConstFile, ps: nat) -> Out {
    let h = Out::empty(ps).raw(f.magic).align_ptr().ptr_value(
        f.main_character_offset as nat,
    ).put_i32(f.constants.len() as i32);
    let p = h.align_ptr().len();
    let t = h.ptr_slot().align_ptr();
    write_entries(t.ptr_fill(p, t.len()), f.constants, f.constants.len())
}

/// The bytes of a constant file: `[header][entry table][string pool]`.
pub open spec fn const_bytes(f: model::ConstFile, ps: nat) -> Seq<u8> {
    flush::flush(const_layout(f, ps)).img.bytes
}

/// The first string of the table that latin-1 cannot hold.
pub open spec fn const_foreign(f: model::ConstFile, ps: nat) -> Option<Seq<char>> {
    let strings = flush::all_strings(const_layout(f, ps));
    flush::first_foreign(strings, strings.len())
}

pub proof fn lemma_write_entry(o: Out, v: model::Value)
    requires
        o.ok(),
    ensures
        o.extends_to(write_entry(o, v)),
{
    broadcast use out::group_ext;

}

pub proof fn lemma_write_entries(o: Out, v: Seq<model::Value>, n: nat)
    requires
        o.ok(),
        n <= v.len(),
    ensures
        o.extends_to(write_entries(o, v, n)),
    decreases n,
{
    broadcast use out::group_ext;

    if n == 0 {
        out::ext_refl(o);
    } else {
        lemma_write_entries(o, v, (n - 1) as nat);
        lemma_write_entry(write_entries(o, v, (n - 1) as nat), v[n - 1]);
    }
}

/// After reading the 4-byte payload of a pointer-width union slot, skip the
/// high half in 64-bit files.
fn finish_entry(c: &mut Cursor) -> (r: Result<(), Error>)
    ensures
        final(c).data == old(c).data,
        final(c).ptr_size == old(c).ptr_size,
        match r {
            Ok(_) => final(c).rd() == if old(c).src().ps == 8 {
                old(c).src().u32(old(c).rd()).1
            } else {
                old(c).rd()
            },
            Err(e) => old(c).src().ps == 8 && old(c).src().u32(old(c).rd()).1.err == Some(e@),
        },
{
    if c.ptr_size == PtrSize::Eight {
        c.u32()?;
    }
    Ok(())
}

/// The payload of a pointer-width union slot.
fn payload(c: &mut Cursor) -> (r: Result<u32, Error>)
    ensures
        final(c).data == old(c).data,
        final(c).ptr_size == old(c).ptr_size,
        reader::reads(r, read_payload(old(c).src(), old(c).rd()), final(c).pos as int),
{
    c.align_ptr();
    let v: u32 = c.u32()?;
    finish_entry(c)?;
    Ok(v)
}

/// One entry of the table.
fn entry(tc: &mut Cursor) -> (r: Result<Value, Error>)
    ensures
        final(tc).data == old(tc).data,
        final(tc).ptr_size == old(tc).ptr_size,
        reader::reads_view(r, read_entry(old(tc).src(), old(tc).rd()), final(tc).pos as int),
{
    tc.align_ptr();
    let entry_type: i32 = tc.i32()?;
    match entry_type {
        ENTRY_STRING => {
            let off: u64 = tc.ptr()?;
            let s = tc.string_at(off)?;
            Ok(Value::String(s))
        },
        ENTRY_NONE => {
            tc.ptr()?;
            Ok(Value::Undefined)
        },
        ENTRY_REGISTER => {
            let v: u32 = payload(tc)?;
            Ok(Value::Register(v as i32))
        },
        ENTRY_BOOLEAN => {
            let v: u32 = payload(tc)?;
            Ok(Value::Boolean(v != 0))
        },
        ENTRY_FLOAT => {
            let v: u32 = payload(tc)?;
            Ok(Value::Float(v))
        },
        ENTRY_INTEGER => {
            let v: u32 = payload(tc)?;
            Ok(Value::Integer(v as i32))
        },
        ENTRY_LOOKUP => {
            let v: u32 = payload(tc)?;
            Ok(Value::Lookup(v))
        },
        t => Err(Error::InvalidConstantType(t)),
    }
}

/// The first 20 bytes.
fn first_20(data: &[u8]) -> (m: [u8; 20])
    requires
        data@.len() >= 20,
    ensures
        m@ == data@.take(20),
{
    let m = [
        data[0],
        data[1],
        data[2],
        data[3],
        data[4],
        data[5],
        data[6],
        data[7],
        data[8],
        data[9],
        data[10],
        data[11],
        data[12],
        data[13],
        data[14],
        data[15],
        data[16],
        data[17],
        data[18],
        data[19],
    ];
    assert(m@ =~= data@.take(20));
    m
}

/// Non-string payloads occupy the low 4 bytes of the pointer-width union slot.
fn write_int_payload(a: &mut Arena, v: u32)
    requires
        old(a)@.inv(),
    ensures
        final(a)@ == old(a)@.align(old(a)@.ps).put(old(a)@.ps, v as nat),
        final(a)@.inv(),
        final(a).ptr_size == old(a).ptr_size,
{
    a.ptr_value(v as u64);
}

/// One entry being written.
fn put_entry(a: &mut Arena, strings: &mut Deferred, value: &Value)
    requires
        old(a)@.inv(),
    ensures
        final(a)@.inv(),
        final(a).ptr_size == old(a).ptr_size,
        joined(final(a)@, final(strings)@) == write_entry(
            joined(old(a)@, old(strings)@),
            value@,
        ),
{
    a.align_ptr();
    match value {
        Value::String(s) => {
            a.i32(ENTRY_STRING);
            strings.string(a, s.as_str());
        },
        Value::Undefined => {
            a.i32(ENTRY_NONE);
            a.ptr_value(0);
        },
        Value::Register(v) => {
            a.i32(ENTRY_REGISTER);
            write_int_payload(a, *v as u32);
        },
        Value::Boolean(v) => {
            a.i32(ENTRY_BOOLEAN);
            write_int_payload(
                a,
                if *v {
                    1
                } else {
                    0
                },
            );
        },
        Value::Float(v) => {
            a.i32(ENTRY_FLOAT);
            write_int_payload(a, *v);
        },
        Value::Integer(v) => {
            a.i32(ENTRY_INTEGER);
            write_int_payload(a, *v as u32);
        },
        Value::Lookup(v) => {
            a.i32(ENTRY_LOOKUP);
            write_int_payload(a, *v);
        },
    }
}

impl ConstFile {
    pub fn read(data: &[u8], ptr_size: PtrSize) -> (r: Result<ConstFile, Error>)
        ensures
            reader::gives(r, read_const(Src { data: data@, ps: ptr_size.width() })),
    {
        let mut c = Cursor::new(data, ptr_size);
        let ghost src = c.src();
        proof {
            assert forall|c: Rd| c.err is Some implies (#[trigger] entry_step(src)(c)).1 == c by {}
        }
        if data.len() < 20 {
            proof {
                let d = read_const(src).1;
                let n = src.i32(src.ptr(Rd::start(0).fail(model::Error::BadConstMagic)).1).0;
                let t = src.ptr(
                    src.i32(src.ptr(Rd::start(0).fail(model::Error::BadConstMagic)).1).1,
                );
                reader::lemma_reps_sticky(
                    entry_step(src),
                    t.1.at(t.0 as int),
                    0,
                    reader::items(n),
                );
            }
            return Err(Error::BadConstMagic);
        }
        let magic = first_20(data);
        c.pos = 20;
        let ghost (s1, s2, s3) = {
            let s1 = src.ptr(Rd::start(20));
            let s2 = src.i32(s1.1);
            let s3 = src.ptr(s2.1);
            (s1, s2, s3)
        };
        let ghost steps = reader::items(s2.0);
        proof {
            if s3.1.err is Some {
                reader::lemma_reps_sticky(entry_step(src), s3.1.at(s3.0 as int), 0, steps);
            }
        }
        let main_character_offset: u64 = c.ptr()?;
        let n_constants: i32 = c.i32()?;
        let table_offset: u64 = c.ptr()?;
        let mut constants: Vec<Value> = Vec::new();
        let mut tc = c.at(table_offset);
        let ghost c0 = tc.rd();
        let mut i: i32 = 0;
        while i < n_constants
            invariant
                0 <= i,
                i <= n_constants || i == 0,
                tc.src() == src,
                src == (Src { data: data@, ps: ptr_size.width() }),
                steps == reader::items(n_constants),
                reader::sticky(entry_step(src)),
                reader::reps(entry_step(src), c0, i as nat) == (
                    model::views(constants@),
                    tc.rd(),
                ),
                read_const(src).1 == reader::reps(entry_step(src), c0, steps).1,
            decreases n_constants - i,
        {
            broadcast use model::lemma_views_push;

            let value = match entry(&mut tc) {
                Ok(value) => value,
                Err(e) => {
                    proof {
                        reader::lemma_reps_sticky(entry_step(src), c0, (i + 1) as nat, steps);
                    }
                    return Err(e);
                },
            };
            constants.push(value);
            i = i + 1;
        }
        Ok(ConstFile { magic, main_character_offset, constants })
    }

    /// Serialize: `[header][entry table][string pool]`.
    pub fn write(&self, ptr_size: PtrSize) -> (r: Result<Vec<u8>, Error>)
        ensures
            match const_foreign(self@, ptr_size.width()) {
                None => r matches Ok(b) && b@ == const_bytes(self@, ptr_size.width()),
                Some(s) => r matches Err(e) && e@ == model::Error::NonLatin1String(s),
            },
    {
        broadcast use out::group_ext;

        let mut a = Arena::new(ptr_size);
        let mut strings = Deferred::default();
        let ghost ps = ptr_size.width();
        proof {
            out::lemma_empty(ps);
            out::ext_refl(Out::empty(ps));
        }
        a.bytes(self.magic.as_slice());
        a.align_ptr();
        a.ptr_value(self.main_character_offset);
        a.i32(self.constants.len() as i32);
        let ghost h = joined(a@, strings@);
        let table_patch = a.ptr_patch();
        a.align_ptr();
        let ghost t = joined(a@, strings@);
        let table_off: u64 = a.len() as u64;
        proof {
            assert(h == Out::empty(ps).raw(self@.magic).align_ptr().ptr_value(
                self@.main_character_offset as nat,
            ).put_i32(self@.constants.len() as i32));
            assert(t == h.ptr_slot().align_ptr());
            assert(t.pending(table_patch.pos(), ps));
            layout::lemma_held_bounds(a@, table_patch.pos(), ps, (0, 0));
        }
        a.patch_ptr(table_patch, table_off);
        let ghost base = joined(a@, strings@);
        assert(base == t.ptr_fill(table_patch.pos(), t.len()));
        let mut i: usize = 0;
        while i < self.constants.len()
            invariant
                i <= self.constants@.len(),
                a@.inv(),
                a.ptr_size == ptr_size,
                joined(a@, strings@) == write_entries(base, self@.constants, i as nat),
            decreases self.constants@.len() - i,
        {
            put_entry(&mut a, &mut strings, &self.constants[i]);
            i = i + 1;
        }
        proof {
            lemma_write_entries(base, self@.constants, self@.constants.len());
        }
        // String pool, deduplicated.
        strings.flush(&mut a)?;
        Ok(a.buf)
    }
}

} // verus!
