//! The `.dat` texture-map format: bitmap character ID -> texture ID.
//!
//! Line-oriented ASCII; `;` begins a comment, blank lines ignored. Two forms:
//! - `<bitmapCharID>-><textureID>` - mapped
//! - `<bitmapCharID>=<textureID>`  - unmapped (texture ID equals the char ID)
use super::table::{self, lists_keys};
use super::{Error, Trouble};
use crate::text::{self, Span};
use std::collections::BTreeMap;
use vstd::prelude::*;

verus! {

/// A parsed `.dat` texture map.
#[derive(Debug, Clone, PartialEq)]
pub struct TextureMap {
    /// bitmap character ID -> texture ID.
    pub entries: BTreeMap<u32, u32>,
}

impl View for TextureMap {
    type V = Map<u32, u32>;

    open spec fn view(&self) -> Map<u32, u32> {
        self.entries@
    }
}

/// The ID that `s` spells.
pub open spec fn id_of(s: Seq<char>) -> Result<u32, Trouble> {
    match text::number(text::trim(s), u32::MAX as nat) {
        Some(n) => Ok(n as u32),
        None => Err(Trouble::BadId(s)),
    }
}

/// The entry that a line says: the first part of it up to `->` and the part
/// behind, else the part up to `=` alone. Blank lines and comments say none.
pub open spec fn line_entry(line: Seq<char>) -> Result<Option<(u32, u32)>, Trouble> {
    let t = text::trim(line);
    let k = text::find_pair(t, '-', '>');
    let e = text::find(t, '=');
    if t.len() == 0 || t[0] == ';' {
        Ok(None)
    } else if k < t.len() {
        match (id_of(t.take(k)), id_of(t.skip(k + 2))) {
            (Err(x), _) => Err(x),
            (Ok(_), Err(x)) => Err(x),
            (Ok(a), Ok(b)) => Ok(Some((a, b))),
        }
    } else if e < t.len() {
        match id_of(t.take(e)) {
            Err(x) => Err(x),
            Ok(a) => Ok(Some((a, a))),
        }
    } else {
        Err(Trouble::UnrecognizedLine(t))
    }
}

/// The map `m` with the entries of the lines; later entries replace earlier ones.
pub open spec fn with_lines(m: Map<u32, u32>, lines: Seq<Seq<char>>) -> Result<
    Map<u32, u32>,
    Trouble,
>
    decreases lines.len(),
{
    if lines.len() == 0 {
        Ok(m)
    } else {
        match line_entry(lines[0]) {
            Err(x) => Err(x),
            Ok(None) => with_lines(m, lines.skip(1)),
            Ok(Some((a, b))) => with_lines(m.insert(a, b), lines.skip(1)),
        }
    }
}

/// The map that a text says.
pub open spec fn map_of(s: Seq<char>) -> Result<Map<u32, u32>, Trouble> {
    with_lines(Map::empty(), text::split(s, '\n'))
}

/// The line for one entry.
pub open spec fn entry_line(k: u32, v: u32) -> Seq<char> {
    if k == v {
        text::decimal(k as nat) + seq!['='] + text::decimal(v as nat) + seq!['\r']
    } else {
        text::decimal(k as nat) + seq!['-', '>'] + text::decimal(v as nat) + seq!['\r']
    }
}

/// The lines for the entries with these keys, each ended by a line feed.
pub open spec fn entry_lines(ks: Seq<u32>, m: Map<u32, u32>) -> Seq<char>
    decreases ks.len(),
{
    if ks.len() == 0 {
        Seq::empty()
    } else {
        entry_line(ks[0], m[ks[0]]) + seq!['\n'] + entry_lines(ks.skip(1), m)
    }
}

/// Text as the bytes of the same numbers.
pub open spec fn ascii(s: Seq<char>) -> Seq<u8> {
    Seq::new(s.len(), |i: int| (s[i] as u32) as u8)
}

/// Reads an ID.
fn parse_id(v: &Vec<char>, r: Span) -> (id: Result<u32, Error>)
    requires
        text::within(v@, r),
    ensures
        match id {
            Ok(x) => id_of(text::part(v@, r)) == Ok::<u32, Trouble>(x),
            Err(e) => id_of(text::part(v@, r)) == Err::<u32, Trouble>(e@),
        },
{
    match text::read_number(v, text::trim_span(v, r), u32::MAX) {
        Some(x) => Ok(x),
        None => Err(Error::BadId(text::from_chars(v, r.0, r.1))),
    }
}

/// The entry that a line says.
fn parse_line(v: &Vec<char>, line: Span) -> (r: Result<Option<(u32, u32)>, Error>)
    requires
        text::within(v@, line),
    ensures
        match r {
            Ok(x) => line_entry(text::part(v@, line)) == Ok::<Option<(u32, u32)>, Trouble>(x),
            Err(e) => line_entry(text::part(v@, line)) == Err::<Option<(u32, u32)>, Trouble>(e@),
        },
{
    let t: Span = text::trim_span(v, line);
    let ghost s = text::part(v@, t);
    if t.0 == t.1 || v[t.0] == ';' {
        return Ok(None);
    }
    let k: usize = text::find_pair_in(v, t, '-', '>');
    if k < t.1 {
        proof {
            assert(s.take(k - t.0) =~= text::part(v@, (t.0, k)));
            assert(s.skip(k - t.0 + 2) =~= text::part(v@, ((k + 2) as usize, t.1)));
        }
        let char_id: u32 = parse_id(v, (t.0, k))?;
        let tex_id: u32 = parse_id(v, (k + 2, t.1))?;
        return Ok(Some((char_id, tex_id)));
    }
    let e: usize = text::find_in(v, t, '=');
    if e < t.1 {
        proof {
            assert(s.take(e - t.0) =~= text::part(v@, (t.0, e)));
        }
        // Unmapped: texture ID is the character ID itself.
        let id: u32 = parse_id(v, (t.0, e))?;
        return Ok(Some((id, id)));
    }
    Err(Error::UnrecognizedLine(text::from_chars(v, t.0, t.1)))
}

impl Default for TextureMap {
    fn default() -> (m: TextureMap)
        ensures
            m@ == Map::<u32, u32>::empty(),
    {
        TextureMap { entries: BTreeMap::new() }
    }
}

impl TextureMap {
    /// Reads a texture map from bytes.
    pub fn parse(data: &[u8]) -> (r: Result<TextureMap, Error>)
        ensures
            match r {
                Ok(m) => map_of(text::lossy(data@)) == Ok::<Map<u32, u32>, Trouble>(m@),
                Err(e) => map_of(text::lossy(data@)) == Err::<Map<u32, u32>, Trouble>(e@),
            },
    {
        let s = text::from_utf8_lossy(data);
        TextureMap::parse_text(s.as_str())
    }

    /// Reads a texture map from text.
    pub fn parse_text(s: &str) -> (r: Result<TextureMap, Error>)
        ensures
            match r {
                Ok(m) => map_of(s@) == Ok::<Map<u32, u32>, Trouble>(m@),
                Err(e) => map_of(s@) == Err::<Map<u32, u32>, Trouble>(e@),
            },
    {
        let v = text::to_chars(s);
        let mut entries: BTreeMap<u32, u32> = BTreeMap::new();
        let n: usize = v.len();
        assert(text::part(v@, (0usize, n)) =~= s@);
        let lines = text::split_spans(&v, (0, n), '\n');
        let ghost all = text::split(s@, '\n');
        let mut i: usize = 0;
        assert(all.skip(0) =~= all);
        while i < lines.len()
            invariant
                i <= lines@.len(),
                all == text::parts(v@, lines@),
                forall|k: int| 0 <= k < lines@.len() ==> text::within(v@, #[trigger] lines@[k]),
                with_lines(entries@, all.skip(i as int)) == with_lines(Map::empty(), all),
                all == text::split(s@, '\n'),
            decreases lines@.len() - i,
        {
            assert(text::within(v@, lines@[i as int]));
            proof {
                let rest = all.skip(i as int);
                assert(rest[0] == text::part(v@, lines@[i as int]));
                assert(rest.skip(1) =~= all.skip(i + 1));
            }
            match parse_line(&v, lines[i])? {
                Some((char_id, tex_id)) => {
                    table::put(&mut entries, char_id, tex_id);
                },
                None => {},
            }
            i = i + 1;
        }
        assert(all.skip(i as int) =~= Seq::<Seq<char>>::empty());
        Ok(TextureMap { entries })
    }

    /// The map as text: one line per entry, in ascending order of the keys.
    pub fn serialize(&self) -> (out: Vec<u8>)
        ensures
            exists|ks: Seq<u32>| #[trigger]
                lists_keys(ks, self@) && out@ == ascii(entry_lines(ks, self@)),
    {
        let keys = table::keys(&self.entries);
        let ghost ks = keys@;
        let ghost m = self@;
        let mut out = String::new();
        let mut i: usize = 0;
        proof {
            assert(ks.skip(0) =~= ks);
            assert(out@ + entry_lines(ks, m) =~= entry_lines(ks, m));
            assert(lists_keys(ks, m));
        }
        while i < keys.len()
            invariant
                i <= keys@.len(),
                keys@ == ks,
                m == self@,
                lists_keys(ks, m),
                out@ + entry_lines(ks.skip(i as int), m) == entry_lines(ks, m),
            decreases keys@.len() - i,
        {
            let char_id: u32 = keys[i];
            assert(ks.to_set().contains(char_id));
            let tex_id: u32 = self.texture_id(char_id);
            let ghost before = out@;
            text::push_decimal(&mut out, char_id);
            if char_id == tex_id {
                out.push('=');
            } else {
                out.push('-');
                out.push('>');
            }
            text::push_decimal(&mut out, tex_id);
            out.push('\r');
            out.push('\n');
            proof {
                let rest = ks.skip(i as int);
                assert(rest.skip(1) =~= ks.skip(i + 1));
                assert(out@ =~= before + entry_line(char_id, tex_id) + seq!['\n']);
                assert(out@ + entry_lines(rest.skip(1), m) =~= before + entry_lines(rest, m));
            }
            i = i + 1;
        }
        assert(ks.skip(i as int) =~= Seq::<u32>::empty());
        assert(out@ =~= entry_lines(ks, m));
        to_ascii(out.as_str())
    }

    /// Resolve a bitmap character ID to a texture ID (identity if absent).
    pub fn texture_id(&self, bitmap_character_id: u32) -> (id: u32)
        ensures
            id == texture_of(self@, bitmap_character_id),
    {
        match table::get(&self.entries, bitmap_character_id) {
            Some(id) => id,
            None => bitmap_character_id,
        }
    }
}

/// The texture for a bitmap character: the mapped one, else that of the same ID.
pub open spec fn texture_of(m: Map<u32, u32>, id: u32) -> u32 {
    if m.dom().contains(id) {
        m[id]
    } else {
        id
    }
}

/// Text as the bytes of the same numbers.
fn to_ascii(s: &str) -> (out: Vec<u8>)
    ensures
        out@ == ascii(s@),
{
    let v = text::to_chars(s);
    let mut out: Vec<u8> = Vec::new();
    let mut i: usize = 0;
    while i < v.len()
        invariant
            i <= v@.len(),
            v@ == s@,
            out@ == ascii(s@.take(i as int)),
        decreases v@.len() - i,
    {
        out.push(v[i] as u32 as u8);
        assert(ascii(s@.take(i + 1)) =~= ascii(s@.take(i as int)).push((s@[i as int] as u32) as u8));
        i = i + 1;
    }
    assert(s@.take(i as int) =~= s@);
    out
}

proof fn lemma_trim_none(s: Seq<char>)
    requires
        s.len() > 0,
        !text::is_space(s[0]),
        !text::is_space(s[s.len() - 1]),
    ensures
        text::trim(s) == s,
{
}

/// A line ended by a carriage return says what it says without it.
pub proof fn lemma_trim_line(s: Seq<char>)
    requires
        s.len() > 0,
        !text::is_space(s[0]),
        !text::is_space(s[s.len() - 1]),
    ensures
        text::trim(s.push('\r')) == s,
{
    let t = s.push('\r');
    assert(t[0] == s[0]);
    assert(text::trim_start(t) == t);
    assert(t.take(t.len() - 1) =~= s);
    assert(text::trim_end(t) == text::trim_end(s));
}

proof fn lemma_digit_plain(c: char)
    requires
        text::is_digit(c),
    ensures
        !text::is_space(c),
        c != '-',
        c != '=',
        c != ';',
        c != '+',
        c != '\n',
{
}

proof fn lemma_id(n: u32)
    ensures
        id_of(text::decimal(n as nat)) == Ok::<u32, Trouble>(n),
{
    let d = text::decimal(n as nat);
    text::lemma_decimal(n as nat);
    assert(text::is_digit(d[0]) && text::is_digit(d[d.len() - 1]));
    lemma_digit_plain(d[0]);
    lemma_digit_plain(d[d.len() - 1]);
    lemma_trim_none(d);
}

/// An entry is read back from its line.
proof fn lemma_entry(k: u32, v: u32)
    ensures
        line_entry(entry_line(k, v)) == Ok::<Option<(u32, u32)>, Trouble>(Some((k, v))),
        forall|i: int| 0 <= i < entry_line(k, v).len() ==> entry_line(k, v)[i] != '\n',
{
    let a = text::decimal(k as nat);
    let b = text::decimal(v as nat);
    text::lemma_decimal(k as nat);
    text::lemma_decimal(v as nat);
    let mid = if k == v {
        seq!['=']
    } else {
        seq!['-', '>']
    };
    let t = a + mid + b;
    assert(entry_line(k, v) =~= t.push('\r'));
    assert forall|i: int| 0 <= i < a.len() implies text::is_digit(#[trigger] t[i]) by {
        assert(t[i] == a[i]);
    }
    let n = (a.len() + mid.len()) as int;
    assert forall|i: int| n <= i < t.len() implies text::is_digit(#[trigger] t[i]) by {
        assert(t[i] == b[i - n]);
    }
    lemma_digit_plain(t[0]);
    lemma_digit_plain(t[t.len() - 1]);
    lemma_trim_line(t);
    lemma_id(k);
    lemma_id(v);
    assert(t.take(a.len() as int) =~= a);
    if k == v {
        assert forall|i: int| 0 <= i < t.len() && i + 1 < t.len() implies !(#[trigger] t[i] == '-'
            && t[i + 1] == '>') by {
            if i != a.len() {
                lemma_digit_plain(t[i]);
            }
        }
        text::lemma_find_pair(t, '-', '>', t.len() as int);
        assert forall|i: int| 0 <= i < a.len() implies t[i] != '=' by {
            lemma_digit_plain(t[i]);
        }
        text::lemma_find(t, '=', a.len() as int);
    } else {
        assert forall|i: int| 0 <= i < a.len() && i + 1 < t.len() implies !(#[trigger] t[i] == '-'
            && t[i + 1] == '>') by {
            lemma_digit_plain(t[i]);
        }
        text::lemma_find_pair(t, '-', '>', a.len() as int);
        assert(t.skip(a.len() as int + 2) =~= b);
    }
    let e = entry_line(k, v);
    assert forall|i: int| 0 <= i < e.len() implies e[i] != '\n' by {
        if i < a.len() || n <= i < t.len() {
            assert(e[i] == t[i]);
            lemma_digit_plain(t[i]);
        }
    }
}

proof fn lemma_lines(m: Map<u32, u32>, ks: Seq<u32>, all: Map<u32, u32>)
    ensures
        with_lines(m, text::split(entry_lines(ks, all), '\n')) == Ok::<Map<u32, u32>, Trouble>(
            put_all(m, ks, all),
        ),
    decreases ks.len(),
{
    let s = entry_lines(ks, all);
    if ks.len() == 0 {
        text::lemma_find(s, '\n', 0);
        assert(text::split(s, '\n') == seq![s]);
        assert(line_entry(s) == Ok::<Option<(u32, u32)>, Trouble>(None));
        assert(seq![s].skip(1) =~= Seq::<Seq<char>>::empty());
        assert(with_lines(m, seq![s].skip(1)) == Ok::<Map<u32, u32>, Trouble>(m));
    } else {
        let k = ks[0];
        let e = entry_line(k, all[k]);
        lemma_entry(k, all[k]);
        let rest = entry_lines(ks.skip(1), all);
        assert forall|i: int| 0 <= i < e.len() implies s[i] != '\n' by {
            assert(s[i] == e[i]);
        }
        text::lemma_find(s, '\n', e.len() as int);
        assert(s.take(e.len() as int) =~= e);
        assert(s.skip(e.len() as int + 1) =~= rest);
        let lines = text::split(s, '\n');
        assert(lines.skip(1) =~= text::split(rest, '\n'));
        assert(lines[0] == e);
        lemma_lines(m.insert(k, all[k]), ks.skip(1), all);
    }
}

/// `m` with the entries of `all` under these keys.
pub open spec fn put_all(m: Map<u32, u32>, ks: Seq<u32>, all: Map<u32, u32>) -> Map<u32, u32>
    decreases ks.len(),
{
    if ks.len() == 0 {
        m
    } else {
        put_all(m.insert(ks[0], all[ks[0]]), ks.skip(1), all)
    }
}

proof fn lemma_put_all(m: Map<u32, u32>, ks: Seq<u32>, all: Map<u32, u32>, k: u32)
    ensures
        put_all(m, ks, all).dom().contains(k) <==> m.dom().contains(k) || ks.contains(k),
        ks.contains(k) ==> put_all(m, ks, all)[k] == all[k],
        m.dom().contains(k) && !ks.contains(k) ==> put_all(m, ks, all)[k] == m[k],
    decreases ks.len(),
{
    if ks.len() > 0 {
        let rest = ks.skip(1);
        lemma_put_all(m.insert(ks[0], all[ks[0]]), rest, all, k);
        if ks.contains(k) {
            let i = choose|i: int| 0 <= i < ks.len() && ks[i] == k;
            if i > 0 {
                assert(rest[i - 1] == k);
            }
        }
        if rest.contains(k) {
            let i = choose|i: int| 0 <= i < rest.len() && rest[i] == k;
            assert(ks[i + 1] == k);
        }
        assert(ks.contains(ks[0]));
    }
}

/// A map is read back from its text.
pub proof fn law_dat_roundtrip(m: Map<u32, u32>, ks: Seq<u32>)
    requires
        lists_keys(ks, m),
    ensures
        map_of(entry_lines(ks, m)) == Ok::<Map<u32, u32>, Trouble>(m),
{
    lemma_lines(Map::empty(), ks, m);
    let got = put_all(Map::empty(), ks, m);
    assert forall|k: u32| #[trigger] got.dom().contains(k) <==> m.dom().contains(k) by {
        lemma_put_all(Map::empty(), ks, m, k);
        assert(ks.to_set().contains(k) <==> ks.contains(k));
    }
    assert forall|k: u32| m.dom().contains(k) implies #[trigger] got[k] == m[k] by {
        lemma_put_all(Map::empty(), ks, m, k);
        assert(ks.to_set().contains(k) <==> ks.contains(k));
    }
    assert(got.dom() =~= m.dom());
    assert(got =~= m);
}

} // verus!
