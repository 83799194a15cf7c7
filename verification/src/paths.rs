//! Paths as texts: parts separated by `/`.
//!
//! A separator at the end of a path, and a part `.` behind another one, say nothing.
use crate::text;
use vstd::prelude::*;

verus! {

/// A path without what says nothing at its end.
pub open spec fn trimmed(path: Seq<char>) -> Seq<char>
    decreases path.len(),
{
    let n = path.len() as int;
    if n > 0 && path[n - 1] == '/' {
        trimmed(path.take(n - 1))
    } else if n > 1 && path[n - 1] == '.' && path[n - 2] == '/' {
        trimmed(path.take(n - 2))
    } else {
        path
    }
}

/// Where the last part of a path starts.
pub open spec fn name_start(path: Seq<char>) -> int
    decreases path.len(),
{
    if path.len() == 0 || path[path.len() - 1] == '/' {
        path.len() as int
    } else {
        name_start(path.take(path.len() - 1))
    }
}

/// The last part of a path, where it is a name.
pub open spec fn file_name(path: Seq<char>) -> Option<Seq<char>> {
    let t = trimmed(path);
    let n = t.skip(name_start(t));
    if n.len() == 0 || n == seq!['.'] || n == seq!['.', '.'] {
        None
    } else {
        Some(n)
    }
}

/// A directory as it stands before the name of something in it.
pub open spec fn as_folder(dir: Seq<char>) -> Seq<char> {
    if dir.len() == 0 {
        Seq::empty()
    } else {
        trimmed(dir).push('/')
    }
}

/// The directory of what a path leads to, as it stands before a name. What has no
/// directory above it stands in the current one.
pub open spec fn folder(path: Seq<char>) -> Seq<char> {
    let t = trimmed(path);
    if t.len() == 0 {
        seq!['.', '/']
    } else {
        as_folder(t.take(name_start(t)))
    }
}

/// What is next to the thing that a path leads to and bears its name with something
/// behind it. A path that ends in no name counts as a directory that holds `instead`.
pub open spec fn beside(path: Seq<char>, instead: Seq<char>) -> Seq<char> {
    match file_name(path) {
        Some(n) => folder(path) + n,
        None => as_folder(path) + instead,
    }
}

/// How many characters of a path are left when what says nothing at its end is dropped.
pub(crate) fn trimmed_len(v: &Vec<char>, end: usize) -> (n: usize)
    requires
        end <= v@.len(),
    ensures
        n <= end,
        v@.take(n as int) == trimmed(v@.take(end as int)),
{
    let mut n: usize = end;
    while n > 0 && (v[n - 1] == '/' || (n > 1 && v[n - 1] == '.' && v[n - 2] == '/'))
        invariant
            n <= end <= v@.len(),
            trimmed(v@.take(n as int)) == trimmed(v@.take(end as int)),
        decreases n,
    {
        let k: usize = if v[n - 1] == '/' {
            1
        } else {
            2
        };
        assert(v@.take(n as int).take(n - k) =~= v@.take(n - k));
        n = n - k;
    }
    n
}

/// Where the last part of the first `end` characters starts.
fn name_start_of(v: &Vec<char>, end: usize) -> (k: usize)
    requires
        end <= v@.len(),
    ensures
        k == name_start(v@.take(end as int)),
        k <= end,
{
    let mut k: usize = end;
    while k > 0 && v[k - 1] != '/'
        invariant
            k <= end <= v@.len(),
            name_start(v@.take(k as int)) == name_start(v@.take(end as int)),
        decreases k,
    {
        assert(v@.take(k as int).take(k - 1) =~= v@.take(k - 1));
        k = k - 1;
    }
    k
}

/// The last part of a path, where it is a name.
pub fn name_of(path: &str) -> (r: Option<String>)
    ensures
        match r {
            Some(n) => file_name(path@) == Some(n@),
            None => file_name(path@) is None,
        },
{
    let v = text::to_chars(path);
    let n: usize = trimmed_len(&v, v.len());
    let k: usize = name_start_of(&v, n);
    let ghost t = trimmed(path@);
    let ghost name = t.skip(k as int);
    proof {
        assert(v@.take(v@.len() as int) =~= path@);
        assert(v@.take(n as int) == t);
        assert(name.len() == n - k);
        if n - k == 1 {
            assert(name[0] == v@[k as int]);
            assert(v@[k as int] == '.' ==> name =~= seq!['.']);
        }
        if n - k == 2 {
            assert(name[0] == v@[k as int] && name[1] == v@[k + 1]);
            assert(v@[k as int] == '.' && v@[k + 1] == '.' ==> name =~= seq!['.', '.']);
        }
    }
    if n == k || (n - k == 1 && v[k] == '.') || (n - k == 2 && v[k] == '.' && v[k + 1] == '.') {
        return None;
    }
    let s = text::from_chars(&v, k, n);
    assert(s@ =~= name);
    Some(s)
}

fn as_folder_of(v: &Vec<char>, end: usize) -> (r: String)
    requires
        end <= v@.len(),
    ensures
        r@ == as_folder(v@.take(end as int)),
{
    let mut s = String::new();
    if end > 0 {
        let n: usize = trimmed_len(v, end);
        s = text::from_chars(v, 0, n);
        assert(s@ =~= v@.take(n as int));
        s.push('/');
    }
    assert(s@ =~= as_folder(v@.take(end as int)));
    s
}

/// The directory of what a path leads to, as it stands before a name.
pub fn folder_of(path: &str) -> (r: String)
    ensures
        r@ == folder(path@),
{
    let v = text::to_chars(path);
    let n: usize = trimmed_len(&v, v.len());
    let ghost t = trimmed(path@);
    assert(v@.take(v@.len() as int) =~= path@);
    if n == 0 {
        let mut s = String::new();
        s.push('.');
        s.push('/');
        assert(s@ =~= seq!['.', '/']);
        assert(t.len() == 0);
        return s;
    }
    let k: usize = name_start_of(&v, n);
    assert(t.take(k as int) =~= v@.take(k as int));
    as_folder_of(&v, k)
}

/// What is next to the thing that a path leads to and bears its name.
pub fn beside_of(path: &str, instead: &str) -> (r: String)
    ensures
        r@ == beside(path@, instead@),
{
    match name_of(path) {
        Some(n) => {
            let mut s = folder_of(path);
            text::push_text(&mut s, n.as_str());
            s
        },
        None => {
            let v = text::to_chars(path);
            assert(v@.take(v@.len() as int) =~= path@);
            let mut s = as_folder_of(&v, v.len());
            text::push_text(&mut s, instead);
            s
        },
    }
}

proof fn lemma_name_start(path: Seq<char>)
    ensures
        0 <= name_start(path) <= path.len(),
        forall|i: int| name_start(path) <= i < path.len() ==> path[i] != '/',
        name_start(path) > 0 ==> path[name_start(path) - 1] == '/',
    decreases path.len(),
{
    if path.len() > 0 && path[path.len() - 1] != '/' {
        let t = path.take(path.len() - 1);
        lemma_name_start(t);
        assert forall|i: int| name_start(path) <= i < path.len() implies path[i] != '/' by {
            if i < t.len() {
                assert(path[i] == t[i]);
            }
        }
    }
}

proof fn lemma_trimmed(path: Seq<char>)
    ensures
        ({
            let t = trimmed(path);
            &&& trimmed(t) == t
            &&& t.len() <= path.len()
            &&& t.len() > 0 ==> t[t.len() - 1] != '/'
            &&& t.len() > 1 && t[t.len() - 1] == '.' ==> t[t.len() - 2] != '/'
        }),
    decreases path.len(),
{
    let n = path.len() as int;
    if n > 0 && path[n - 1] == '/' {
        lemma_trimmed(path.take(n - 1));
    } else if n > 1 && path[n - 1] == '.' && path[n - 2] == '/' {
        lemma_trimmed(path.take(n - 2));
    }
}

/// Where the last part starts is settled by the characters around it.
proof fn lemma_name_start_is(path: Seq<char>, k: int)
    requires
        0 <= k <= path.len(),
        forall|i: int| k <= i < path.len() ==> path[i] != '/',
        k > 0 ==> path[k - 1] == '/',
    ensures
        name_start(path) == k,
    decreases path.len(),
{
    if k < path.len() {
        lemma_name_start_is(path.take(path.len() - 1), k);
    }
}

/// What is put into the directory of something is in that directory, under the name it
/// was given; `name` has no separator in it and is no `.` or `..`.
pub proof fn law_siblings(path: Seq<char>, name: Seq<char>)
    requires
        file_name(path) is Some,
        name.len() > 0,
        name != seq!['.'],
        name != seq!['.', '.'],
        forall|i: int| 0 <= i < name.len() ==> name[i] != '/',
    ensures
        folder(folder(path) + name) == folder(path),
        file_name(folder(path) + name) == Some(name),
{
    let t = trimmed(path);
    lemma_trimmed(path);
    lemma_name_start(t);
    let d = t.take(name_start(t));
    lemma_trimmed(d);
    let f = folder(path);
    let s = f + name;
    let k = f.len() as int;
    assert(k > 0 ==> f[k - 1] == '/');
    assert forall|i: int| k <= i < s.len() implies s[i] != '/' by {
        assert(s[i] == name[i - k]);
    }
    assert(s[s.len() - 1] == name[name.len() - 1]);
    assert(trimmed(s) == s) by {
        if s.len() > 1 && s[s.len() - 1] == '.' && s[s.len() - 2] == '/' {
            if name.len() == 1 {
                assert(name =~= seq!['.']);
            } else {
                assert(s[s.len() - 2] == name[name.len() - 2]);
            }
        }
    }
    assert(s.len() > 0);
    lemma_name_start_is(s, k);
    assert(s.skip(k) =~= name);
    assert(s.take(k) =~= f);
    if f.len() > 0 {
        let u = trimmed(d);
        assert(f == u.push('/'));
        assert(f.take(f.len() - 1) =~= u);
        assert(trimmed(f) == trimmed(u));
        assert(trimmed(u) == u);
    }
}

} // verus!
