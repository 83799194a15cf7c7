//! What holds of reading and writing APT files as a whole.
use super::bytes::round_up;
use super::clean::{self, law_clean_layout};
use super::constfile::{self, const_bytes, const_layout};
use super::decode::{self, Ctx};
use super::encode;
use super::flush;
use super::io::joined;
use super::layout;
use super::model;
use super::ordering;
use super::out::{self, Out};
use super::parsed;
use super::parsing::{self, Px};
use super::readback::{self, clean, here, limit, settled, src, target};
use super::readback_actions::{self, short, storable_stream};
use super::readback_movie::{self, seen_movie, storable_movie};
use super::reader::{self, reps, Rd, Src};
use super::settle::{self, all_clean};
use super::types::PtrSize;
use super::writable;
use super::writing;
use vstd::prelude::*;

verus! {

/// Whether none of the strings holds a zero character, which would end it.
pub open spec fn terminable(v: Seq<(int, Seq<char>)>) -> bool {
    forall|k: int, i: int|
        0 <= k < v.len() && 0 <= i < v[k].1.len() ==> (#[trigger] v[k].1[i]) as u32 != 0
}

proof fn lemma_foreign(v: Seq<(int, Seq<char>)>, n: nat)
    requires
        n <= v.len(),
        flush::first_foreign(v, n) is None,
    ensures
        forall|k: int| 0 <= k < n ==> reader::is_latin1((#[trigger] v[k]).1),
    decreases n,
{
    if n > 0 {
        lemma_foreign(v, (n - 1) as nat);
    }
}

proof fn lemma_clean(v: Seq<(int, Seq<char>)>)
    requires
        flush::first_foreign(v, v.len()) is None,
        terminable(v),
    ensures
        all_clean(v),
{
    lemma_foreign(v, v.len());
    assert forall|k: int| 0 <= k < v.len() implies clean((#[trigger] v[k]).1) by {
        assert forall|i: int| 0 <= i < v[k].1.len() implies (#[trigger] v[k].1[i]) as u32 != 0 by {}
    }
}

#[verifier::rlimit(40)]
proof fn lemma_entry(o: Out, v: model::Value, fin: Out)
    requires
        settled(fin),
        o.ok(),
        constfile::write_entry(o, v).grows_to(fin),
    ensures
        o.grows_to(fin),
        constfile::read_entry(src(fin), here(o)) == (v, here(constfile::write_entry(o, v))),
{
    broadcast use readback::group_back, out::group_ext;

    let a = o.align_ptr();
    assert(a.ok());
    match v {
        model::Value::String(s) => {
            let b = a.put_i32(constfile::ENTRY_STRING);
            assert(b.ok());
            readback::lemma_text_slot(b, s, fin);
            readback::lemma_string_at(
                fin,
                target(fin, round_up(b.len(), b.ps())),
                s,
                here(b.text(s)),
            );
            assert(b.grows_to(fin));
        },
        model::Value::Undefined => {
            let b = a.put_i32(constfile::ENTRY_NONE);
            assert(b.ok());
            assert(b.ptr_value(0).grows_to(fin));
            assert(b.grows_to(fin));
        },
        model::Value::Register(x) => {
            lemma_payload(a.put_i32(constfile::ENTRY_REGISTER), x as u32, fin);
            readback::lemma_i32_bits(x);
        },
        model::Value::Boolean(x) => {
            let n: u32 = if x {
                1
            } else {
                0
            };
            lemma_payload(a.put_i32(constfile::ENTRY_BOOLEAN), n, fin);
        },
        model::Value::Float(x) => {
            lemma_payload(a.put_i32(constfile::ENTRY_FLOAT), x, fin);
        },
        model::Value::Integer(x) => {
            lemma_payload(a.put_i32(constfile::ENTRY_INTEGER), x as u32, fin);
            readback::lemma_i32_bits(x);
        },
        model::Value::Lookup(x) => {
            lemma_payload(a.put_i32(constfile::ENTRY_LOOKUP), x, fin);
        },
    }
    assert(a.grows_to(fin));
}

/// The 4-byte payload of a pointer-width slot.
proof fn lemma_payload(b: Out, v: u32, fin: Out)
    requires
        settled(fin),
        b.ok(),
        b.ptr_value(v as nat).grows_to(fin),
    ensures
        b.grows_to(fin),
        constfile::read_payload(src(fin), here(b)) == (v, here(b.ptr_value(v as nat))),
{
    broadcast use readback::group_back, out::group_ext;

    let a = b.align_ptr();
    assert(a.ok());
    assert(a.put(b.ps(), v as nat).grows_to(fin));
    let s = src(fin);
    if fin.ps() == 8 {
        reveal_with_fuel(super::bytes::un_le, 9);
        let d = fin.img.bytes;
        let p = a.len();
        assert(super::bytes::un_le(d, p, 8) == super::bytes::un_le(d, p, 4) + 0x1_0000_0000
            * super::bytes::un_le(d, p + 4, 4));
    }
}

proof fn lemma_entries(o: Out, v: Seq<model::Value>, n: nat, fin: Out)
    requires
        settled(fin),
        o.ok(),
        n <= v.len(),
        constfile::write_entries(o, v, n).grows_to(fin),
    ensures
        o.grows_to(fin),
        reps(constfile::entry_step(src(fin)), here(o), n) == (
            v.take(n as int),
            here(constfile::write_entries(o, v, n)),
        ),
    decreases n,
{
    if n == 0 {
        assert(v.take(0) =~= Seq::<model::Value>::empty());
    } else {
        let m = (n - 1) as nat;
        constfile::lemma_write_entries(o, v, m);
        let a = constfile::write_entries(o, v, m);
        out::ext_facts(o, a);
        lemma_entry(a, v[m as int], fin);
        lemma_entries(o, v, m, fin);
        assert(v.take(n as int) =~= v.take(m as int).push(v[m as int]));
        let step = constfile::entry_step(src(fin));
        assert(step(here(a)) == (v[m as int], here(constfile::write_entries(o, v, n))));
    }
}

/// The states on the way to a constant file.
proof fn lemma_const_layout(f: model::ConstFile, ps: nat)
    requires
        ps == 4 || ps == 8,
        f.magic.len() == 20,
    ensures
        const_layout(f, ps).ok(),
        20 <= const_layout(f, ps).len(),
        const_layout(f, ps).consts.len() == 0,
        const_layout(f, ps).ps() == ps,
{
    broadcast use out::group_ext;

    out::lemma_empty(ps);
    let a = Out::empty(ps).raw(f.magic);
    assert(Out::empty(ps).extends_to(a));
    let b = a.align_ptr();
    let c = b.ptr_value(f.main_character_offset as nat);
    let h = c.put_i32(f.constants.len() as i32);
    assert(a.extends_to(h));
    assert(h.extends_to(h.align_ptr()));
    let p = h.align_ptr().len();
    let s = h.ptr_slot();
    let t = s.align_ptr();
    assert(s.pending(p, ps));
    assert(s.extends_to(t));
    let u = t.ptr_fill(p, t.len());
    assert(u.ok());
    constfile::lemma_write_entries(u, f.constants, f.constants.len());
    lemma_entries_consts(u, f.constants, f.constants.len());
}

proof fn lemma_entries_consts(o: Out, v: Seq<model::Value>, n: nat)
    ensures
        constfile::write_entries(o, v, n).consts == o.consts,
    decreases n,
{
    if n > 0 {
        lemma_entries_consts(o, v, (n - 1) as nat);
    }
}

/// A constant file is read back as it was: no string of it may hold a zero character,
/// and its offsets must fit in its pointers.
pub proof fn law_const_file_roundtrip(f: model::ConstFile, ps: nat)
    requires
        ps == 4 || ps == 8,
        f.magic.len() == 20,
        f.constants.len() <= i32::MAX,
        ps == 4 ==> f.main_character_offset <= u32::MAX,
        constfile::const_foreign(f, ps) is None,
        terminable(flush::all_strings(const_layout(f, ps))),
        const_bytes(f, ps).len() <= limit(ps),
    ensures
        constfile::read_const(Src { data: const_bytes(f, ps), ps }).0 == f,
        constfile::read_const(Src { data: const_bytes(f, ps), ps }).1.err is None,
{
    broadcast use readback::group_back, out::group_ext;

    let o = const_layout(f, ps);
    lemma_const_layout(f, ps);
    lemma_clean(flush::all_strings(o));
    settle::lemma_settled(o);
    let fin = flush::flush(o);
    out::grow_facts(o, fin);
    assert(src(fin) == (Src { data: const_bytes(f, ps), ps }));
    out::lemma_empty(ps);
    let z = Out::empty(ps);
    let a = z.raw(f.magic);
    assert(z.extends_to(a));
    let b = a.align_ptr();
    let c = b.ptr_value(f.main_character_offset as nat);
    assert(b.ok());
    let h = c.put_i32(f.constants.len() as i32);
    assert(h.ok());
    let p = h.align_ptr().len();
    assert(h.extends_to(h.align_ptr()));
    let s = h.ptr_slot();
    let t = s.align_ptr();
    assert(s.pending(p, ps));
    assert(s.extends_to(t));
    let u = t.ptr_fill(p, t.len());
    assert(u.ok());
    lemma_entries(u, f.constants, f.constants.len(), fin);
    readback::back_ptr_fill(t, p, t.len(), fin);
    assert(s.grows_to(fin));
    assert(h.grows_to(fin));
    assert(c.grows_to(fin));
    assert(b.grows_to(fin));
    lemma_main_offset(b, f.main_character_offset, fin);
    assert(a.grows_to(fin));
    assert(f.constants.take(f.constants.len() as int) =~= f.constants);
    assert(a.img.grows_to(fin.img)) by {
        reveal(Out::grows_to);
    }
    layout::lemma_append_read(z.img, f.magic, fin.img);
    assert(fin.img.bytes.take(20) =~= f.magic) by {
        assert forall|i: int| 0 <= i < 20 implies fin.img.bytes[i] == f.magic[i] by {
            assert(fin.img.bytes[z.img.len() + i] == f.magic[i]);
        }
    }
    layout::lemma_round_up(20, ps);
    layout::lemma_round_up(b.len(), ps);
    let got = constfile::read_const(src(fin));
    assert(src(fin).align_ptr(Rd::start(20)) == here(b));
    assert(src(fin).align_ptr(here(b)) == here(b));
    assert(got.0 =~= f);
}

proof fn lemma_main_offset(b: Out, v: u64, fin: Out)
    requires
        settled(fin),
        b.ok(),
        b.ptr_value(v as nat).grows_to(fin),
        fin.ps() == 4 ==> v <= u32::MAX,
    ensures
        src(fin).ptr(here(b)) == (v, here(b.ptr_value(v as nat))),
{
    broadcast use readback::group_back, out::group_ext;

    let a = b.align_ptr();
    assert(a.ok());
    assert(a.put(b.ps(), v as nat).grows_to(fin));
}

/// The states on the way to a movie.
proof fn lemma_movie_layout(m: model::Movie, ps: nat, decoupled: bool, tag: Seq<u8>)
    requires
        ps == 4 || ps == 8,
        tag.len() == 16,
        storable_movie(m, ps),
    ensures
        writing::layout(m, ps, decoupled, tag).ok(),
        Out::empty(ps).raw(tag).ok(),
        Out::empty(ps).raw(tag).len() == 16,
        16 <= writing::layout(m, ps, decoupled, tag).len(),
        writing::layout(m, ps, decoupled, tag).ps() == ps,
        Out::empty(ps).raw(tag).extends_to(writing::layout(m, ps, decoupled, tag)),
        writing::root_place(ps, tag) == 16,
        Out::empty(ps).raw(tag).align_ptr().len() == 16,
{
    broadcast use out::group_ext;

    out::lemma_empty(ps);
    let o = Out::empty(ps).raw(tag);
    assert(Out::empty(ps).extends_to(o));
    readback_movie::lemma_root_grows(o, decoupled, m);
    out::ext_facts(o, writing::root(o, decoupled, m));
    layout::lemma_round_up(16, ps);
}

proof fn lemma_header(data: Seq<u8>, tag: Seq<u8>)
    requires
        tag.len() == 16,
        data.len() >= 16,
        forall|i: int| 0 <= i < 16 ==> data[i] == tag[i],
    ensures
        parsing::header(data) == parsing::header(tag),
{
    assert(data.take(8) =~= tag.take(8));
    assert(data.take(16) =~= tag.take(16));
}

/// Whether a movie can be stored as it is with this layout: it is storable, no string
/// in it holds a zero character, and the offsets of both files fit in their pointers.
pub open spec fn storable_file(f: model::AptFile, ps: nat, decoupled: bool, tag: Seq<u8>) -> bool {
    let o = writing::layout(f.movie, ps, decoupled, tag);
    let k = writing::const_part(f, ps, decoupled, tag);
    let b = writing::file_bytes(f, ps, decoupled, tag);
    &&& ps == 4 || ps == 8
    &&& tag.len() == 16
    &&& f.const_magic.len() == 20
    &&& storable_movie(f.movie, ps)
    &&& o.consts.len() <= i32::MAX
    &&& terminable(flush::all_strings(o))
    &&& terminable(flush::all_strings(const_layout(k, ps)))
    &&& b.0.len() <= limit(ps)
    &&& b.1.len() <= limit(ps)
}

/// Reading what was written gives the movie back, for both pointer sizes and
/// both rendering variants. The header is the one that the tag spells, and of a
/// shape's backing bitmap only what the layout stores comes back.
pub proof fn law_movie_roundtrip(
    f: model::AptFile,
    h: model::Header,
    ps: nat,
    decoupled: bool,
    tag: Seq<u8>,
)
    requires
        storable_file(f, ps, decoupled, tag),
        writing::file_err(f, ps, decoupled, tag) is None,
        parsing::header(tag) == Ok::<model::Header, model::Error>(h),
        h.ptr_size.width() == ps,
        h.decoupled == decoupled,
    ensures
        ({
            let b = writing::file_bytes(f, ps, decoupled, tag);
            parsing::apt_file(b.0, b.1) == Ok::<model::AptFile, model::Error>(
                model::AptFile {
                    header: h,
                    const_magic: f.const_magic,
                    movie: seen_movie(f.movie, decoupled),
                },
            )
        }),
{
    let o = writing::layout(f.movie, ps, decoupled, tag);
    let k = writing::const_part(f, ps, decoupled, tag);
    let b = writing::file_bytes(f, ps, decoupled, tag);
    let z = Out::empty(ps).raw(tag);
    let strings = flush::all_strings(o);
    lemma_movie_layout(f.movie, ps, decoupled, tag);
    lemma_clean(strings);
    settle::lemma_settled(o);
    let fin = flush::flush(o);
    out::grow_facts(o, fin);
    readback_movie::lemma_root(z, decoupled, f.movie, fin);
    law_const_file_roundtrip(k, ps);
    assert(z.img.grows_to(fin.img)) by {
        reveal(Out::grows_to);
    }
    let e = Out::empty(ps);
    layout::lemma_empty(ps);
    layout::lemma_append_read(e.img, tag, fin.img);
    assert forall|i: int| 0 <= i < 16 implies b.0[i] == tag[i] by {
        assert(fin.img.bytes[e.img.len() + i] == tag[i]);
    }
    lemma_header(b.0, tag);
    assert(fin.consts == o.consts);
    assert(readback_movie::px(fin, decoupled) == (Px {
        x: Ctx { src: Src { data: b.0, ps }, consts: k.constants },
        decoupled,
    }));
}

/// A movie that was read is written and read again as it was, for both pointer sizes
/// and both rendering variants, as long as the offsets of both files fit in their
/// pointers and no stream of it is empty or longer than a 4-byte distance reaches. With
/// the rendering variant that it was read from, all of it comes back. Its constants come
/// back in the order in which an engine resolves them.
pub proof fn law_semantic_roundtrip(
    apt: Seq<u8>,
    consts: Seq<u8>,
    f: model::AptFile,
    h: model::Header,
    tag: Seq<u8>,
)
    requires
        apt.len() <= usize::MAX,
        parsing::apt_file(apt, consts) == Ok::<model::AptFile, model::Error>(f),
        parsed::whole_movie(f.movie, h.ptr_size.width()),
        tag.len() == 16,
        parsing::header(tag) == Ok::<model::Header, model::Error>(h),
        writing::layout(f.movie, h.ptr_size.width(), h.decoupled, tag).consts.len() <= i32::MAX,
        writing::file_bytes(f, h.ptr_size.width(), h.decoupled, tag).0.len() <= limit(
            h.ptr_size.width(),
        ),
        writing::file_bytes(f, h.ptr_size.width(), h.decoupled, tag).1.len() <= limit(
            h.ptr_size.width(),
        ),
    ensures
        writing::file_err(f, h.ptr_size.width(), h.decoupled, tag) is None,
        ({
            let b = writing::file_bytes(f, h.ptr_size.width(), h.decoupled, tag);
            parsing::apt_file(b.0, b.1) == Ok::<model::AptFile, model::Error>(
                model::AptFile {
                    header: h,
                    const_magic: f.const_magic,
                    movie: seen_movie(f.movie, h.decoupled),
                },
            )
        }),
        h.decoupled == f.header.decoupled ==> seen_movie(f.movie, h.decoupled) == f.movie,
        ({
            let b = writing::file_bytes(f, h.ptr_size.width(), h.decoupled, tag);
            let k = constfile::read_const(Src { data: b.1, ps: h.ptr_size.width() }).0;
            k.constants == ordering::movie_constants(f.movie) && k.magic == f.const_magic
        }),
{
    let ps = h.ptr_size.width();
    parsed::law_read_movies(apt, consts, f, h.ptr_size.width());
    writable::law_read_movies_write(apt, consts, f, ps, h.decoupled, tag);
    law_clean_layout(f, ps, h.decoupled, tag);
    let o = writing::layout(f.movie, ps, h.decoupled, tag);
    let k = writing::const_part(f, ps, h.decoupled, tag);
    lemma_terminable(flush::all_strings(o));
    lemma_terminable(flush::all_strings(const_layout(k, ps)));
    law_movie_roundtrip(f, h, ps, h.decoupled, tag);
    lemma_movie_layout(f.movie, ps, h.decoupled, tag);
    law_const_file_roundtrip(k, ps);
    ordering::law_constant_order(f, ps, h.decoupled, tag);
}

proof fn lemma_terminable(v: Seq<(int, Seq<char>)>)
    requires
        all_clean(v),
    ensures
        terminable(v),
{
    assert forall|k: int, i: int| 0 <= k < v.len() && 0 <= i < v[k].1.len() implies (
    #[trigger] v[k].1[i]) as u32 != 0 by {
        assert(readback::clean(v[k].1));
    }
}

/// A stream that is encoded behind anything, with what it waits for placed after it, is
/// decoded as it was: branches, `With` and `Try` keep the instructions that they lead
/// to, for both pointer sizes.
pub proof fn law_stream_roundtrip(o: Out, v: Seq<model::Instruction>)
    requires
        o.ok(),
        storable_stream(v, o.ps()),
        encode::block_err(v) is None,
        ({
            let s = encode::stream(o, v);
            let strings = flush::all_strings(joined(s.img, s.def));
            &&& s.consts.len() <= i32::MAX
            &&& flush::first_foreign(strings, strings.len()) is None
            &&& terminable(strings)
            &&& flush::flush(joined(s.img, s.def)).len() <= limit(o.ps())
        }),
    ensures
        ({
            let s = encode::stream(o, v);
            let blob = flush::flush(joined(s.img, s.def)).img.bytes;
            let x = Ctx { src: Src { data: blob, ps: o.ps() }, consts: s.consts };
            decode::block(x, Rd::start(o.len()), None) == (v, Rd::start(s.len()))
        }),
{
    let s = encode::stream(o, v);
    lemma_taken(o, v);
    lemma_blob(s);
    let fin = flush::flush(s);
    readback_actions::lemma_block(o, v, true, fin);
}

/// A stream that was decoded is encoded for any pointer size and decoded again as it was,
/// as long as it is not longer than a 4-byte distance reaches and the offsets fit in the
/// pointers.
pub proof fn law_decoded_roundtrip(x: Ctx, start: int, ps: nat)
    requires
        parsed::blob(x),
        x.src.len() < usize::MAX,
        0 <= start <= x.src.len(),
        ps == 4 || ps == 8,
        ({
            let (v, d) = decode::block(x, Rd::start(start), None);
            let s = encode::stream(Out::empty(ps), v);
            &&& d.err is None
            &&& short(v, ps)
            &&& s.consts.len() <= i32::MAX
            &&& flush::flush(joined(s.img, s.def)).len() <= limit(ps)
        }),
    ensures
        ({
            let v = decode::block(x, Rd::start(start), None).0;
            let s = encode::stream(Out::empty(ps), v);
            let strings = flush::all_strings(joined(s.img, s.def));
            let blob = flush::flush(joined(s.img, s.def)).img.bytes;
            let y = Ctx { src: Src { data: blob, ps }, consts: s.consts };
            &&& encode::block_err(v) is None
            &&& flush::first_foreign(strings, strings.len()) is None
            &&& decode::block(y, Rd::start(0), None) == (v, Rd::start(s.len()))
        }),
{
    let v = decode::block(x, Rd::start(start), None).0;
    parsed::lemma_decoded(x, Rd::start(start), ps);
    writable::lemma_block(x, Rd::start(start), None);
    let o = Out::empty(ps);
    out::lemma_empty(ps);
    let pool = clean::clean_values(x.consts);
    clean::lemma_empty(ps, pool);
    clean::lemma_block(o, v, true, pool);
    let s = encode::stream(o, v);
    clean::lemma_placed(s, pool);
    let j = joined(s.img, s.def);
    flush::lemma_flush_consts(j, s.consts);
    assert(flush::swap(j, s.consts) == s);
    let strings = flush::all_strings(j);
    lemma_terminable(strings);
    writable::lemma_no_foreign(strings, strings.len());
    law_stream_roundtrip(o, v);
}

/// A stream takes room.
proof fn lemma_taken(o: Out, v: Seq<model::Instruction>)
    requires
        o.ok(),
        v.len() > 0,
    ensures
        o.len() < encode::stream(o, v).len(),
        encode::stream(o, v).ok(),
        encode::stream(o, v).ps() == o.ps(),
{
    encode::lemma_block(o, v, true);
    out::ext_facts(o, encode::stream(o, v));
    assert(encode::stream(o, v).len() == encode::insns_out(o, v, v.len()).len()) by {
        encode::lemma_fill_all(o, v, v.len());
    }
    assert(encode::insns_out(o, v, 0int as nat).len() < encode::insns_out(
        o,
        v,
        (v.len() as int) as nat,
    ).len()) by {
        encode::lemma_insns(o, v, v.len());
    }
}

/// Constants do not matter to where out-of-line data is placed.
proof fn lemma_blob(s: Out)
    requires
        s.ok(),
        0 < s.len(),
        s.consts.len() <= i32::MAX,
        ({
            let strings = flush::all_strings(joined(s.img, s.def));
            &&& flush::first_foreign(strings, strings.len()) is None
            &&& terminable(strings)
            &&& flush::flush(joined(s.img, s.def)).len() <= limit(s.ps())
        }),
    ensures
        flush::flush(joined(s.img, s.def)).img == flush::flush(s).img,
        settled(flush::flush(s)),
        s.grows_to(flush::flush(s)),
        flush::flush(s).consts == s.consts,
        flush::flush(s).ps() == s.ps(),
{
    let j = joined(s.img, s.def);
    flush::lemma_flush_consts(j, s.consts);
    assert(flush::swap(j, s.consts) == s);
    lemma_clean(flush::all_strings(s));
    settle::lemma_settled(s);
    out::grow_facts(s, flush::flush(s));
}

/// A synthesized tag spells the layout it was made for; of the SWF version it
/// keeps the last digit.
pub proof fn law_long_tag(ptr_size: PtrSize, decoupled: bool, swf_version: u8)
    ensures
        parsing::header(writing::long_tag(ptr_size, decoupled, swf_version)) == Ok::<
            model::Header,
            model::Error,
        >(
            model::Header {
                decoupled,
                swf_version: (swf_version % 10) as u8,
                ptr_size,
                raw_tag: writing::long_tag(ptr_size, decoupled, swf_version),
            },
        ),
{
    let t = writing::long_tag(ptr_size, decoupled, swf_version);
    assert(t.take(8) =~= parsing::tag_word());
    assert(t.take(16) =~= t);
}

} // verus!
