//! Strings as the sequences of their characters.
use vstd::prelude::*;

verus! {

/// `String::push` puts one character at the end of the string.
pub assume_specification[ std::string::String::push ](s: &mut std::string::String, c: char)
    ensures
        final(s)@ == old(s)@.push(c),
;

/// The characters of a string.
pub fn to_chars(s: &str) -> (v: Vec<char>)
    ensures
        v@ == s@,
{
    let mut v: Vec<char> = Vec::new();
    for c in it: s.chars()
        invariant
            it.seq() == s@,
            v@ == s@.take(it.index()),
    {
        v.push(c);
        assert(s@.take(it.index() + 1) =~= s@.take(it.index()).push(c));
    }
    assert(s@.take(s@.len() as int) =~= s@);
    v
}

/// The string of the characters from `from` up to, not including, `to`.
pub fn from_chars(v: &Vec<char>, from: usize, to: usize) -> (s: std::string::String)
    requires
        from <= to <= v@.len(),
    ensures
        s@ == v@.subrange(from as int, to as int),
{
    let mut s = std::string::String::new();
    let mut i: usize = from;
    assert(v@.subrange(from as int, from as int) =~= Seq::<char>::empty());
    while i < to
        invariant
            from <= i <= to <= v@.len(),
            s@ == v@.subrange(from as int, i as int),
        decreases to - i,
    {
        s.push(v[i]);
        assert(v@.subrange(from as int, i + 1) =~= v@.subrange(from as int, i as int).push(
            v@[i as int],
        ));
        i = i + 1;
    }
    s
}

/// What `String::from_utf8_lossy` makes of bytes.
pub uninterp spec fn lossy(data: Seq<u8>) -> Seq<char>;

/// Calls `String::from_utf8_lossy`: the text that the bytes spell in UTF-8, with
/// replacement characters where they spell none. ASCII bytes spell the characters
/// of the same numbers.
#[verifier::external_body]
pub(crate) fn from_utf8_lossy(data: &[u8]) -> (s: std::string::String)
    ensures
        s@ == lossy(data@),
        (forall|i: int| 0 <= i < data@.len() ==> (#[trigger] data@[i]) < 0x80) ==> s@ == Seq::new(
            data@.len(),
            |i: int| data@[i] as char,
        ),
{
    std::string::String::from_utf8_lossy(data).into_owned()
}

/// Unicode white space.
pub open spec fn is_space(c: char) -> bool {
    ||| 0x09 <= c as u32 <= 0x0D
    ||| c as u32 == 0x20
    ||| c as u32 == 0x85
    ||| c as u32 == 0xA0
    ||| c as u32 == 0x1680
    ||| 0x2000 <= c as u32 <= 0x200A
    ||| 0x2028 <= c as u32 <= 0x2029
    ||| c as u32 == 0x202F
    ||| c as u32 == 0x205F
    ||| c as u32 == 0x3000
}

/// Whether `c` is white space.
pub fn space(c: char) -> (b: bool)
    ensures
        b == is_space(c),
{
    let v: u32 = c as u32;
    (0x09 <= v && v <= 0x0D) || v == 0x20 || v == 0x85 || v == 0xA0 || v == 0x1680 || (0x2000 <= v
        && v <= 0x200A) || (0x2028 <= v && v <= 0x2029) || v == 0x202F || v == 0x205F || v
        == 0x3000
}

/// `s` without white space at its start.
pub open spec fn trim_start(s: Seq<char>) -> Seq<char>
    decreases s.len(),
{
    if s.len() > 0 && is_space(s[0]) {
        trim_start(s.skip(1))
    } else {
        s
    }
}

/// `s` without white space at its end.
pub open spec fn trim_end(s: Seq<char>) -> Seq<char>
    decreases s.len(),
{
    if s.len() > 0 && is_space(s[s.len() - 1]) {
        trim_end(s.take(s.len() - 1))
    } else {
        s
    }
}

/// `s` without white space at its ends.
pub open spec fn trim(s: Seq<char>) -> Seq<char> {
    trim_end(trim_start(s))
}

/// A part of a text: from the first place up to, not including, the second.
pub type Span = (usize, usize);

/// The characters of a part.
pub open spec fn part(v: Seq<char>, r: Span) -> Seq<char> {
    v.subrange(r.0 as int, r.1 as int)
}

/// Whether a part lies within a text.
pub open spec fn within(v: Seq<char>, r: Span) -> bool {
    r.0 <= r.1 <= v.len()
}

/// The characters of several parts.
pub open spec fn parts(v: Seq<char>, r: Seq<Span>) -> Seq<Seq<char>> {
    Seq::new(r.len(), |i: int| part(v, r[i]))
}

pub fn skip_space(v: &Vec<char>, r: Span) -> (t: Span)
    requires
        within(v@, r),
    ensures
        within(v@, t),
        r.0 <= t.0,
        t.1 == r.1,
        part(v@, t) == trim_start(part(v@, r)),
{
    let mut i: usize = r.0;
    while i < r.1 && space(v[i])
        invariant
            r.0 <= i <= r.1 <= v@.len(),
            trim_start(part(v@, (i, r.1))) == trim_start(part(v@, r)),
        decreases r.1 - i,
    {
        assert(part(v@, (i, r.1)).skip(1) =~= part(v@, ((i + 1) as usize, r.1)));
        i = i + 1;
    }
    (i, r.1)
}

pub fn trim_span(v: &Vec<char>, r: Span) -> (t: Span)
    requires
        within(v@, r),
    ensures
        within(v@, t),
        r.0 <= t.0,
        t.1 <= r.1,
        part(v@, t) == trim(part(v@, r)),
{
    let s: Span = skip_space(v, r);
    let mut j: usize = s.1;
    while s.0 < j && space(v[j - 1])
        invariant
            s.0 <= j <= s.1 <= v@.len(),
            trim_end(part(v@, (s.0, j))) == trim_end(part(v@, s)),
        decreases j,
    {
        assert(part(v@, (s.0, j)).take(j - s.0 - 1) =~= part(v@, (s.0, (j - 1) as usize)));
        j = j - 1;
    }
    (s.0, j)
}

/// Where the first `c` is, or the length.
pub open spec fn find(s: Seq<char>, c: char) -> int
    decreases s.len(),
{
    if s.len() == 0 || s[0] == c {
        0
    } else {
        1 + find(s.skip(1), c)
    }
}

pub proof fn lemma_find(s: Seq<char>, c: char, k: int)
    requires
        0 <= k <= s.len(),
        forall|i: int| 0 <= i < k ==> s[i] != c,
        k < s.len() ==> s[k] == c,
    ensures
        find(s, c) == k,
    decreases s.len(),
{
    if k > 0 {
        let t = s.skip(1);
        assert forall|i: int| 0 <= i < k - 1 implies t[i] != c by {
            assert(t[i] == s[i + 1]);
        }
        lemma_find(t, c, k - 1);
    }
}

pub proof fn lemma_find_bounds(s: Seq<char>, c: char)
    ensures
        0 <= find(s, c) <= s.len(),
        forall|i: int| 0 <= i < find(s, c) ==> s[i] != c,
        find(s, c) < s.len() ==> s[find(s, c)] == c,
    decreases s.len(),
{
    if s.len() > 0 && s[0] != c {
        let t = s.skip(1);
        lemma_find_bounds(t, c);
        assert forall|i: int| 0 <= i < find(s, c) implies s[i] != c by {
            if i > 0 {
                assert(s[i] == t[i - 1]);
            }
        }
    }
}

/// Where the first `c` in a part is, or the end of the part.
pub fn find_in(v: &Vec<char>, r: Span, c: char) -> (k: usize)
    requires
        within(v@, r),
    ensures
        r.0 <= k <= r.1,
        k - r.0 == find(part(v@, r), c),
        k < r.1 ==> v@[k as int] == c,
{
    let mut k: usize = r.0;
    while k < r.1 && v[k] != c
        invariant
            r.0 <= k <= r.1 <= v@.len(),
            forall|i: int| r.0 <= i < k ==> v@[i] != c,
        decreases r.1 - k,
    {
        k = k + 1;
    }
    proof {
        lemma_find(part(v@, r), c, k - r.0);
    }
    k
}

/// The pieces of `s` between the places where `c` stands.
pub open spec fn split(s: Seq<char>, c: char) -> Seq<Seq<char>>
    decreases s.len(),
    via split_decreases
{
    let k = find(s, c);
    if k < s.len() {
        seq![s.take(k)] + split(s.skip(k + 1), c)
    } else {
        seq![s]
    }
}

#[via_fn]
proof fn split_decreases(s: Seq<char>, c: char) {
    lemma_find_bounds(s, c);
}

pub fn split_spans(v: &Vec<char>, r: Span, c: char) -> (out: Vec<Span>)
    requires
        within(v@, r),
    ensures
        out@.len() > 0,
        parts(v@, out@) == split(part(v@, r), c),
        forall|i: int| 0 <= i < out@.len() ==> within(v@, #[trigger] out@[i]),
{
    let mut out: Vec<Span> = Vec::new();
    let mut from: usize = r.0;
    let mut k: usize = find_in(v, r, c);
    let ghost all = split(part(v@, r), c);
    assert(parts(v@, out@) + all =~= all);
    while k < r.1
        invariant
            r.0 <= from <= k <= r.1 <= v@.len(),
            k - from == find(part(v@, (from, r.1)), c),
            parts(v@, out@) + split(part(v@, (from, r.1)), c) == all,
            forall|i: int| 0 <= i < out@.len() ==> within(v@, #[trigger] out@[i]),
        decreases r.1 - k,
    {
        let ghost before = out@;
        let ghost rest = part(v@, (from, r.1));
        out.push((from, k));
        proof {
            let tail = part(v@, ((k + 1) as usize, r.1));
            assert(rest.take(k - from) =~= part(v@, (from, k)));
            assert(rest.skip(k - from + 1) =~= tail);
            assert(parts(v@, out@) =~= parts(v@, before).push(part(v@, (from, k))));
            assert(parts(v@, out@) + split(tail, c) =~= parts(v@, before) + split(rest, c));
        }
        from = k + 1;
        k = find_in(v, (from, r.1), c);
    }
    proof {
        let rest = part(v@, (from, r.1));
        assert(parts(v@, out@.push((from, r.1))) =~= parts(v@, out@) + split(rest, c));
    }
    out.push((from, r.1));
    out
}

/// Where the first of two characters that follow each other is, or the length.
pub open spec fn find_pair(s: Seq<char>, a: char, b: char) -> int
    decreases s.len(),
{
    if s.len() < 2 {
        s.len() as int
    } else if s[0] == a && s[1] == b {
        0
    } else {
        1 + find_pair(s.skip(1), a, b)
    }
}

pub proof fn lemma_find_pair(s: Seq<char>, a: char, b: char, k: int)
    requires
        0 <= k <= s.len(),
        forall|i: int| 0 <= i < k && i + 1 < s.len() ==> !(#[trigger] s[i] == a && s[i + 1] == b),
        k < s.len() ==> k + 1 < s.len() && s[k] == a && s[k + 1] == b,
    ensures
        find_pair(s, a, b) == k,
    decreases s.len(),
{
    if s.len() >= 2 && k > 0 {
        let t = s.skip(1);
        assert(!(s[0] == a && s[1] == b));
        assert forall|i: int| 0 <= i < k - 1 && i + 1 < t.len() implies !(#[trigger] t[i] == a
            && t[i + 1] == b) by {
            assert(t[i] == s[i + 1] && t[i + 1] == s[i + 2]);
            assert(!(s[i + 1] == a && s[(i + 1) + 1] == b));
        }
        lemma_find_pair(t, a, b, k - 1);
    }
}

/// Where the first of two characters that follow each other in a part is, or the
/// end of the part.
pub fn find_pair_in(v: &Vec<char>, r: Span, a: char, b: char) -> (k: usize)
    requires
        within(v@, r),
    ensures
        r.0 <= k <= r.1,
        k - r.0 == find_pair(part(v@, r), a, b),
        k < r.1 ==> k + 1 < r.1,
{
    let mut k: usize = r.0;
    let ghost s = part(v@, r);
    while k < r.1
        invariant
            r.0 <= k <= r.1 <= v@.len(),
            s == part(v@, r),
            forall|i: int|
                0 <= i < k - r.0 && i + 1 < s.len() ==> !(#[trigger] s[i] == a && s[i + 1] == b),
        decreases r.1 - k,
    {
        if r.1 - k >= 2 && v[k] == a && v[k + 1] == b {
            proof {
                assert(s[k - r.0] == a && s[k - r.0 + 1] == b);
                lemma_find_pair(s, a, b, k - r.0);
            }
            return k;
        }
        proof {
            assert(s[k - r.0] == v@[k as int]);
            assert(k + 1 < r.1 ==> s[k - r.0 + 1] == v@[k + 1]);
        }
        k = k + 1;
    }
    proof {
        lemma_find_pair(s, a, b, s.len() as int);
    }
    k
}

/// Whether `c` is a decimal digit.
pub open spec fn is_digit(c: char) -> bool {
    '0' <= c <= '9'
}

/// The number that digits spell.
pub open spec fn digits_value(s: Seq<char>) -> nat
    decreases s.len(),
{
    if s.len() == 0 {
        0
    } else {
        10 * digits_value(s.take(s.len() - 1)) + (s[s.len() - 1] as u32 - '0' as u32) as nat
    }
}

/// `s` without a `+` at its start.
pub open spec fn unsigned(s: Seq<char>) -> Seq<char> {
    if s.len() > 0 && s[0] == '+' {
        s.skip(1)
    } else {
        s
    }
}

/// The number up to `max` that `s` spells: digits, with or without a `+` before them.
pub open spec fn number(s: Seq<char>, max: nat) -> Option<nat> {
    let d = unsigned(s);
    if d.len() > 0 && (forall|i: int| 0 <= i < d.len() ==> is_digit(#[trigger] d[i]))
        && digits_value(d) <= max {
        Some(digits_value(d))
    } else {
        None
    }
}

proof fn lemma_digits_grow(s: Seq<char>, i: int)
    requires
        0 <= i <= s.len(),
    ensures
        digits_value(s.take(i)) <= digits_value(s),
    decreases s.len() - i,
{
    if i < s.len() {
        let t = s.take(i + 1);
        assert(t.take(i) =~= s.take(i));
        lemma_digits_grow(s, i + 1);
    } else {
        assert(s.take(i) =~= s);
    }
}

/// Reads a number up to `max`.
pub fn read_number(v: &Vec<char>, r: Span, max: u32) -> (n: Option<u32>)
    requires
        within(v@, r),
    ensures
        match n {
            Some(x) => number(part(v@, r), max as nat) == Some(x as nat),
            None => number(part(v@, r), max as nat) is None,
        },
{
    let ghost s = part(v@, r);
    let mut from: usize = r.0;
    if r.0 < r.1 && v[r.0] == '+' {
        from = r.0 + 1;
        assert(s.skip(1) =~= part(v@, (from, r.1)));
    }
    let ghost d = part(v@, (from, r.1));
    if from == r.1 {
        return None;
    }
    let mut value: u32 = 0;
    let mut i: usize = from;
    assert(d.take(0) =~= Seq::<char>::empty());
    while i < r.1
        invariant
            r.0 <= from <= i <= r.1 <= v@.len(),
            d == part(v@, (from, r.1)),
            s == part(v@, r),
            d == unsigned(s),
            value <= max,
            value == digits_value(d.take(i - from)),
            forall|k: int| 0 <= k < i - from ==> is_digit(#[trigger] d[k]),
        decreases r.1 - i,
    {
        let c: char = v[i];
        assert(d[i - from] == c);
        if c < '0' || '9' < c {
            assert(!is_digit(d[i - from]));
            return None;
        }
        let digit: u64 = (c as u32 - 48) as u64;
        let next: u64 = 10 * (value as u64) + digit;
        proof {
            let t = d.take(i - from + 1);
            assert(t.take(i - from) =~= d.take(i - from));
            assert(t[i - from] == c);
            assert(next == digits_value(t));
            lemma_digits_grow(d, i - from + 1);
        }
        if next > max as u64 {
            return None;
        }
        value = next as u32;
        i = i + 1;
    }
    assert(d.take(r.1 - from) =~= d);
    Some(value)
}

/// The decimal digits of a number.
pub open spec fn decimal(n: nat) -> Seq<char>
    decreases n,
{
    if n < 10 {
        seq![((n + 48) as u8) as char]
    } else {
        decimal(n / 10).push((((n % 10) + 48) as u8) as char)
    }
}

proof fn lemma_digit(n: nat)
    requires
        n < 10,
    ensures
        is_digit(((n + 48) as u8) as char),
        (((n + 48) as u8) as char) as u32 - '0' as u32 == n,
{
}

/// A number is read back from its digits.
pub proof fn lemma_decimal(n: nat)
    ensures
        decimal(n).len() > 0,
        forall|i: int| 0 <= i < decimal(n).len() ==> is_digit(#[trigger] decimal(n)[i]),
        digits_value(decimal(n)) == n,
    decreases n,
{
    if n < 10 {
        lemma_digit(n);
        assert(decimal(n).take(0) =~= Seq::<char>::empty());
        assert(digits_value(Seq::<char>::empty()) == 0);
    } else {
        lemma_decimal(n / 10);
        lemma_digit(n % 10);
        let s = decimal(n);
        assert(s.take(s.len() - 1) =~= decimal(n / 10));
    }
}

/// Appends the decimal digits of a number.
pub fn push_decimal(out: &mut std::string::String, n: u32)
    ensures
        final(out)@ == old(out)@ + decimal(n as nat),
    decreases n,
{
    if n >= 10 {
        push_decimal(out, n / 10);
    }
    let d: u8 = (n % 10) as u8 + 48;
    out.push(d as char);
    assert(out@ =~= old(out)@ + decimal(n as nat));
}

/// Appends a text.
pub fn push_text(out: &mut std::string::String, s: &str)
    ensures
        final(out)@ == old(out)@ + s@,
{
    let v = to_chars(s);
    let ghost before = out@;
    let mut i: usize = 0;
    assert(before + s@.take(0) =~= before);
    while i < v.len()
        invariant
            i <= v@.len(),
            v@ == s@,
            out@ == before + s@.take(i as int),
        decreases v@.len() - i,
    {
        out.push(v[i]);
        assert(before + s@.take(i + 1) =~= (before + s@.take(i as int)).push(s@[i as int]));
        i = i + 1;
    }
    assert(s@.take(i as int) =~= s@);
}

/// Whether two texts are equal.
pub fn same_text(a: &str, b: &str) -> (r: bool)
    ensures
        r == (a@ == b@),
{
    let v = to_chars(a);
    let w = to_chars(b);
    if v.len() != w.len() {
        return false;
    }
    let mut i: usize = 0;
    while i < v.len()
        invariant
            i <= v@.len(),
            v@.len() == w@.len(),
            v@ == a@,
            w@ == b@,
            forall|k: int| 0 <= k < i ==> v@[k] == w@[k],
        decreases v@.len() - i,
    {
        if v[i] != w[i] {
            return false;
        }
        i = i + 1;
    }
    assert(v@ =~= w@);
    true
}

/// A text of its own.
pub fn copy_of(s: &str) -> (out: std::string::String)
    ensures
        out@ == s@,
{
    let mut out = std::string::String::new();
    push_text(&mut out, s);
    assert(out@ =~= s@);
    out
}

} // verus!
