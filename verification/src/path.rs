//! Path helpers shared by the metadata store and the multi-write wrapper.

use vstd::prelude::*;
use vstd::string::*;

verus! {

/// Position of the last `c` in `s`, if any.
pub open spec fn last_index_of(s: Seq<char>, c: char) -> Option<int>
    decreases s.len(),
{
    if s.len() == 0 {
        None
    } else if s.last() == c {
        Some(s.len() - 1)
    } else {
        last_index_of(s.drop_last(), c)
    }
}

pub proof fn lemma_last_index_of(s: Seq<char>, c: char)
    ensures
        match last_index_of(s, c) {
            Some(k) => 0 <= k < s.len() && s[k] == c && forall|j: int| k < j < s.len() ==> s[j] != c,
            None => forall|j: int| 0 <= j < s.len() ==> s[j] != c,
        },
    decreases s.len(),
{
    if s.len() > 0 && s.last() != c {
        lemma_last_index_of(s.drop_last(), c);
        assert forall|j: int| 0 <= j < s.len() - 1 implies s.drop_last()[j] == s[j] by {}
    }
}

/// The directory part of a path: everything before the last `/`, or `/`.
pub open spec fn spec_parent_dir(p: Seq<char>) -> Seq<char> {
    match last_index_of(p, '/') {
        Some(k) => if k == 0 { seq!['/'] } else { p.subrange(0, k) },
        None => seq!['/'],
    }
}

/// The last component of a path: everything after the last `/`.
pub open spec fn spec_file_name(p: Seq<char>) -> Seq<char> {
    match last_index_of(p, '/') {
        Some(k) => p.subrange(k + 1, p.len() as int),
        None => p,
    }
}

/// Copy the characters of a string slice into a vector.
pub fn chars_of(s: &str) -> (v: Vec<char>)
    ensures
        v@ == s@,
{
    let n = s.unicode_len();
    let mut v: Vec<char> = Vec::new();
    let mut i: usize = 0;
    while i < n
        invariant
            n == s@.len(),
            i <= n,
            v@ == s@.subrange(0, i as int),
        decreases n - i,
    {
        let c = s.get_char(i);
        v.push(c);
        i = i + 1;
        assert(v@ =~= s@.subrange(0, i as int));
    }
    assert(v@ =~= s@);
    v
}

/// Index of the last occurrence of `c` in `v`.
pub fn rfind_char(v: &Vec<char>, c: char) -> (r: Option<usize>)
    ensures
        match r {
            Some(k) => last_index_of(v@, c) == Some(k as int),
            None => last_index_of(v@, c) is None,
        },
{
    let mut i: usize = v.len();
    assert(v@.subrange(0, i as int) =~= v@);
    while i > 0
        invariant
            i <= v.len(),
            last_index_of(v@, c) == last_index_of(v@.subrange(0, i as int), c),
        decreases i,
    {
        if v[i - 1] == c {
            assert(v@.subrange(0, i as int).last() == c);
            return Some(i - 1);
        }
        assert(v@.subrange(0, i as int).drop_last() =~= v@.subrange(0, i - 1));
        i = i - 1;
    }
    assert(v@.subrange(0, 0) =~= Seq::<char>::empty());
    assert(v@.subrange(0, v.len() as int) =~= v@);
    None
}


/// `dir` and `name` joined with a single `/` (the root directory adds none).
pub open spec fn spec_join_path(dir: Seq<char>, name: Seq<char>) -> Seq<char> {
    if dir == seq!['/'] {
        seq!['/'] + name
    } else {
        dir + seq!['/'] + name
    }
}

/// Whether the string is exactly the root directory `/`.
pub fn is_root(s: &str) -> (r: bool)
    ensures
        r == (s@ == seq!['/']),
{
    let n = s.unicode_len();
    if n == 1 {
        let c = s.get_char(0);
        if c == '/' {
            assert(s@ =~= seq!['/']);
            true
        } else {
            false
        }
    } else {
        false
    }
}

/// The root directory as an owned string.
pub fn root_string() -> (r: String)
    ensures
        r@ == seq!['/'],
{
    let lit = "/";
    proof {
        reveal_strlit("/");
    }
    String::from_str(lit)
}

/// Extract the directory path from a file path.
pub fn parent_dir(path: &str) -> (r: String)
    ensures
        r@ == spec_parent_dir(path@),
{
    let v = chars_of(path);
    match rfind_char(&v, '/') {
        Some(k) => {
            proof {
                lemma_last_index_of(path@, '/');
            }
            if k == 0 {
                root_string()
            } else {
                String::from_str(path.substring_char(0, k))
            }
        },
        None => root_string(),
    }
}

/// Extract the file name (last component) from a path.
pub fn file_name<'a>(path: &'a str) -> (r: &'a str)
    ensures
        r@ == spec_file_name(path@),
{
    let v = chars_of(path);
    match rfind_char(&v, '/') {
        Some(k) => {
            proof {
                lemma_last_index_of(path@, '/');
            }
            path.substring_char(k + 1, v.len())
        },
        None => path,
    }
}

/// Join a directory and an entry name into a full path.
pub fn join_path(dir: &str, name: &str) -> (r: String)
    ensures
        r@ == spec_join_path(dir@, name@),
{
    let mut out = root_string();
    if !is_root(dir) {
        out = String::from_str(dir);
        out.append("/");
        proof {
            reveal_strlit("/");
        }
    }
    out.append(name);
    out
}

/// Full path of the metadata file `filename` inside `dir`.
pub fn meta_path(dir: &str, filename: &str) -> (r: String)
    ensures
        r@ == spec_join_path(dir@, filename@),
{
    join_path(dir, filename)
}

/// Joining the parent directory with the file name gives back the path,
/// for every path that holds a `/` whose directory part is not a lone `/`
/// in front of that last `/`.
pub proof fn lemma_join_parent_file_name(p: Seq<char>)
    requires
        last_index_of(p, '/') is Some,
        last_index_of(p, '/')->0 == 0 || p.subrange(0, last_index_of(p, '/')->0) != seq!['/'],
    ensures
        spec_join_path(spec_parent_dir(p), spec_file_name(p)) == p,
{
    lemma_last_index_of(p, '/');
    let k = last_index_of(p, '/')->0;
    if k == 0 {
        assert(seq!['/'] + p.subrange(1, p.len() as int) =~= p);
    } else {
        assert(p.subrange(0, k) + seq!['/'] + p.subrange(k + 1, p.len() as int) =~= p);
    }
}


/// Character-wise equality of two string slices.
pub fn str_eq(a: &str, b: &str) -> (r: bool)
    ensures
        r == (a@ == b@),
{
    let va = chars_of(a);
    let vb = chars_of(b);
    if va.len() != vb.len() {
        return false;
    }
    let mut i: usize = 0;
    while i < va.len()
        invariant
            va@ == a@,
            vb@ == b@,
            va.len() == vb.len(),
            i <= va.len(),
            forall|j: int| 0 <= j < i ==> va@[j] == vb@[j],
        decreases va.len() - i,
    {
        if va[i] != vb[i] {
            return false;
        }
        i = i + 1;
    }
    assert(a@ =~= b@);
    true
}

/// Names of the metadata files that are never shown to users.
pub open spec fn spec_is_internal_name(name: Seq<char>) -> bool {
    ||| name == ".path.ovlock"@
    ||| name == ".sync_log.json"@
    ||| name == ".redirect.json"@
}

/// Whether `name` is one of the internal metadata file names.
pub fn is_internal_name(name: &str) -> (r: bool)
    ensures
        r == spec_is_internal_name(name@),
{
    str_eq(name, ".path.ovlock") || str_eq(name, ".sync_log.json") || str_eq(name, ".redirect.json")
}

} // verus!
