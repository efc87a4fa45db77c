//! Redirect and exclude policies: which files they select.

use vstd::prelude::*;
use vstd::string::*;
use crate::path::{chars_of, file_name, spec_file_name};

verus! {

/// Whether `regex::Regex::new` accepts the pattern.
pub uninterp spec fn regex_compiles(pattern: Seq<char>) -> bool;

/// What `is_match` of the regex compiled from `pattern` answers on `haystack`.
pub uninterp spec fn regex_finds(pattern: Seq<char>, haystack: Seq<char>) -> bool;

/// Compiles `pattern` with `regex::Regex::new` and, when that succeeds, asks
/// `Regex::is_match` whether it matches anywhere in `haystack`.
/// The contract claims only that compilation succeeds exactly when
/// `regex_compiles` holds of the pattern, and that the answer is then
/// `regex_finds` of the pattern and haystack; regex semantics are not stated.
#[verifier::external_body]
fn regex_search(pattern: &str, haystack: &str) -> (r: Option<bool>)
    ensures
        r is Some <==> regex_compiles(pattern@),
        r matches Some(b) ==> b == regex_finds(pattern@, haystack@),
{
    match regex::Regex::new(pattern) {
        Ok(re) => Some(re.is_match(haystack)),
        Err(_) => None,
    }
}

/// `s` ends with `suffix`.
pub open spec fn spec_ends_with(s: Seq<char>, suffix: Seq<char>) -> bool {
    suffix.len() <= s.len() && s.skip(s.len() - suffix.len()) == suffix
}

/// One extension rule against a file name: the regex answer when the rule
/// compiles as a regex, a plain suffix test otherwise.
pub open spec fn spec_extension_rule(pattern: Seq<char>, name: Seq<char>) -> bool {
    if regex_compiles(pattern) {
        regex_finds(pattern, name)
    } else {
        spec_ends_with(name, pattern)
    }
}

/// Whether `s` ends with `suffix`.
pub fn ends_with(s: &str, suffix: &str) -> (r: bool)
    ensures
        r == spec_ends_with(s@, suffix@),
{
    let a = chars_of(s);
    let b = chars_of(suffix);
    if b.len() > a.len() {
        return false;
    }
    let off = a.len() - b.len();
    let mut i: usize = 0;
    while i < b.len()
        invariant
            a@ == s@,
            b@ == suffix@,
            off + b.len() == a.len(),
            i <= b.len(),
            forall|j: int| 0 <= j < i ==> a@[off + j] == b@[j],
        decreases b.len() - i,
    {
        if a[off + i] != b[i] {
            assert(s@.skip(off as int)[i as int] != suffix@[i as int]);
            return false;
        }
        i = i + 1;
    }
    assert(s@.skip(off as int) =~= suffix@);
    true
}

/// Decide one extension rule from the regex outcome: `Some(answer)` when
/// the rule compiled as a regex, `None` when it did not (then a plain
/// suffix test decides).
pub fn extension_rule_matches(pattern: &str, name: &str, regex_outcome: Option<bool>) -> (r: bool)
    ensures
        r == match regex_outcome {
            Some(b) => b,
            None => spec_ends_with(name@, pattern@),
        },
{
    match regex_outcome {
        Some(b) => b,
        None => ends_with(name, pattern),
    }
}

/// A file-selection policy, used for redirects (on the primary) and
/// excludes (on a backup).
#[derive(Debug)]
pub enum RedirectPolicy {
    /// Files strictly larger than `max_size_mb` MiB.
    FileOverSizePolicy { max_size_mb: u64, target: Option<Vec<String>> },
    /// Files whose name matches one of the extension patterns.
    FileExtensionPolicy { extensions: Vec<String>, target: Option<Vec<String>> },
}

/// Size in bytes strictly above `max_size_mb` mebibytes.
pub open spec fn spec_over_size(max_size_mb: u64, size: u64) -> bool {
    size > max_size_mb * 1048576
}

impl RedirectPolicy {
    /// Whether this policy selects a file of `path` and `size`.
    pub open spec fn spec_matches(&self, path: Seq<char>, size: u64) -> bool {
        match self {
            RedirectPolicy::FileOverSizePolicy { max_size_mb, .. } => spec_over_size(*max_size_mb, size),
            RedirectPolicy::FileExtensionPolicy { extensions, .. } => exists|i: int|
                0 <= i < extensions@.len() && spec_extension_rule(
                    #[trigger] extensions@[i]@,
                    spec_file_name(path),
                ),
        }
    }

    /// The backups a redirect policy sends matching files to.
    pub open spec fn spec_target(&self) -> Option<Seq<String>> {
        match self {
            RedirectPolicy::FileOverSizePolicy { target, .. } => match target {
                Some(t) => Some(t@),
                None => None,
            },
            RedirectPolicy::FileExtensionPolicy { target, .. } => match target {
                Some(t) => Some(t@),
                None => None,
            },
        }
    }

    /// A copy of the redirect targets.
    pub fn target(&self) -> (r: Option<Vec<String>>)
        ensures
            match r {
                Some(v) => self.spec_target() == Some(v@),
                None => self.spec_target() is None,
            },
    {
        let t = match self {
            RedirectPolicy::FileOverSizePolicy { target, .. } => target,
            RedirectPolicy::FileExtensionPolicy { target, .. } => target,
        };
        match t {
            Some(v) => Some(clone_strings(v)),
            None => None,
        }
    }
}

/// Copy a vector of strings.
pub fn clone_strings(v: &Vec<String>) -> (r: Vec<String>)
    ensures
        r@ == v@,
{
    let mut out: Vec<String> = Vec::new();
    let mut i: usize = 0;
    while i < v.len()
        invariant
            i <= v.len(),
            out@ == v@.subrange(0, i as int),
        decreases v.len() - i,
    {
        out.push(v[i].clone());
        i = i + 1;
        assert(out@ =~= v@.subrange(0, i as int));
    }
    assert(out@ =~= v@);
    out
}

/// A policy that selects files by path and size; shared by redirects and
/// excludes.
pub trait FilePolicy {
    /// Whether the policy selects the given file.
    fn matches(&self, path: &str, size: u64) -> bool;
}

impl FilePolicy for RedirectPolicy {
    fn matches(&self, path: &str, size: u64) -> (r: bool)
        ensures
            r == self.spec_matches(path@, size),
    {
        match self {
            RedirectPolicy::FileOverSizePolicy { max_size_mb, .. } => {
                if *max_size_mb > 17592186044415 {
                    // The limit is beyond every u64 size.
                    assert(*max_size_mb * 1048576 > u64::MAX) by (nonlinear_arith)
                        requires *max_size_mb > 17592186044415;
                    false
                } else {
                    let max_bytes = *max_size_mb * 1048576;
                    size > max_bytes
                }
            },
            RedirectPolicy::FileExtensionPolicy { extensions, .. } => {
                let name = file_name(path);
                let mut i: usize = 0;
                while i < extensions.len()
                    invariant
                        self.spec_matches(path@, size) == exists|j: int|
                            0 <= j < extensions@.len() && spec_extension_rule(
                                #[trigger] extensions@[j]@,
                                spec_file_name(path@),
                            ),
                        i <= extensions.len(),
                        name@ == spec_file_name(path@),
                        forall|j: int| 0 <= j < i ==> !spec_extension_rule(#[trigger] extensions@[j]@, name@),
                    decreases extensions.len() - i,
                {
                    let pattern = extensions[i].as_str();
                    let outcome = regex_search(pattern, name);
                    if extension_rule_matches(pattern, name, outcome) {
                        assert(spec_extension_rule(extensions@[i as int]@, spec_file_name(path@)));
                        return true;
                    }
                    i = i + 1;
                }
                false
            },
        }
    }
}

} // verus!
