//! Errors, the per-request file-system context, and recovery of a context
//! from a path for background work.

use vstd::prelude::*;
use vstd::string::*;
use crate::path::{chars_of, str_eq};
use crate::text::{decimal, join, spec_decimal, spec_join};

verus! {

/// One backup's failure inside a synchronous fanout.
#[derive(Clone, Debug)]
pub struct BackendFailure {
    pub backend: String,
    pub kind: String,
    pub message: String,
}

/// Errors of the multi-write layer.
#[derive(Clone, Debug)]
pub enum Error {
    /// The path does not exist.
    NotFound(String),
    /// An internal failure with a message.
    Internal(String),
    /// Stored metadata could not be decoded.
    Serialization(String),
    /// A synchronous fanout did not reach its acknowledgement quorum.
    SyncWriteQuorum {
        succeeded: usize,
        required: usize,
        attempted: usize,
        failures: Vec<BackendFailure>,
    },
}

/// How one failure reads inside a quorum error message.
pub open spec fn spec_failure_line(f: BackendFailure) -> Seq<char> {
    f.backend@ + ": "@ + f.message@
}

impl Error {
    /// Short machine-readable kind of the error.
    pub open spec fn spec_kind(&self) -> Seq<char> {
        match self {
            Error::NotFound(_) => "not_found"@,
            Error::Internal(_) => "internal"@,
            Error::Serialization(_) => "serialization"@,
            Error::SyncWriteQuorum { .. } => "sync_write_quorum"@,
        }
    }

    /// Human-readable text of the error.
    pub open spec fn spec_message(&self) -> Seq<char> {
        match self {
            Error::NotFound(p) => "not found: "@ + p@,
            Error::Internal(m) => "internal error: "@ + m@,
            Error::Serialization(m) => "serialization error: "@ + m@,
            Error::SyncWriteQuorum { succeeded, attempted, failures, .. } => "sync write failed: "@
                + spec_decimal(*succeeded as nat) + "/"@ + spec_decimal(*attempted as nat)
                + " backups succeeded. Errors: "@ + spec_join(
                failures@.map_values(|f: BackendFailure| spec_failure_line(f)),
                "; "@,
            ),
        }
    }

    /// Short machine-readable kind of the error.
    pub fn kind(&self) -> (r: String)
        ensures
            r@ == self.spec_kind(),
    {
        match self {
            Error::NotFound(_) => String::from_str("not_found"),
            Error::Internal(_) => String::from_str("internal"),
            Error::Serialization(_) => String::from_str("serialization"),
            Error::SyncWriteQuorum { .. } => String::from_str("sync_write_quorum"),
        }
    }

    /// Human-readable text of the error.
    pub fn message(&self) -> (r: String)
        ensures
            r@ == self.spec_message(),
    {
        match self {
            Error::NotFound(p) => {
                let mut m = String::from_str("not found: ");
                m.append(p.as_str());
                m
            },
            Error::Internal(msg) => {
                let mut m = String::from_str("internal error: ");
                m.append(msg.as_str());
                m
            },
            Error::Serialization(msg) => {
                let mut m = String::from_str("serialization error: ");
                m.append(msg.as_str());
                m
            },
            Error::SyncWriteQuorum { succeeded, attempted, failures, .. } => {
                let mut lines: Vec<String> = Vec::new();
                let mut i: usize = 0;
                while i < failures.len()
                    invariant
                        i <= failures.len(),
                        lines@.len() == i,
                        forall|j: int| 0 <= j < i ==> #[trigger] lines@[j]@ == spec_failure_line(failures@[j]),
                    decreases failures.len() - i,
                {
                    let mut line = failures[i].backend.clone();
                    line.append(": ");
                    line.append(failures[i].message.as_str());
                    lines.push(line);
                    i = i + 1;
                }
                assert(lines@.map_values(|s: String| s@) =~= failures@.map_values(
                    |f: BackendFailure| spec_failure_line(f),
                ));
                let mut m = String::from_str("sync write failed: ");
                m.append(decimal(*succeeded as u64).as_str());
                m.append("/");
                m.append(decimal(*attempted as u64).as_str());
                m.append(" backups succeeded. Errors: ");
                m.append(join(&lines, "; ").as_str());
                m
            },
        }
    }
}

/// The request context: which account a file-system call acts for.
#[derive(Clone, Debug)]
pub struct FsContext {
    pub account_id: String,
}

impl FsContext {
    /// A context for the given account.
    pub fn new(account_id: String) -> (r: FsContext)
        ensures
            r.account_id == account_id,
    {
        FsContext { account_id }
    }

    /// The account this context acts for.
    pub fn account_id(&self) -> (r: &str)
        ensures
            r@ == self.account_id@,
    {
        self.account_id.as_str()
    }
}

/// Drop every leading `c`.
pub open spec fn trim_leading(s: Seq<char>, c: char) -> Seq<char>
    decreases s.len(),
{
    if s.len() > 0 && s[0] == c {
        trim_leading(s.drop_first(), c)
    } else {
        s
    }
}

/// Position of the first `c` in `s`, if any.
pub open spec fn first_index_of(s: Seq<char>, c: char) -> Option<int>
    decreases s.len(),
{
    if s.len() == 0 {
        None
    } else if s[0] == c {
        Some(0)
    } else {
        match first_index_of(s.drop_first(), c) {
            Some(i) => Some(i + 1),
            None => None,
        }
    }
}

/// The text before the first `/` (the whole text when there is none).
pub open spec fn first_segment(s: Seq<char>) -> Seq<char> {
    match first_index_of(s, '/') {
        Some(i) => s.take(i),
        None => s,
    }
}

/// The account id of a path of the form `/local/{account_id}/...`: with the
/// leading slashes removed, the first `/`-separated component is `local` and
/// the second one exists and is not empty.
pub open spec fn spec_resolve_account(p: Seq<char>) -> Option<Seq<char>> {
    let t = trim_leading(p, '/');
    match first_index_of(t, '/') {
        Some(i) => {
            let second = first_segment(t.skip(i + 1));
            if t.take(i) == "local"@ && second.len() > 0 {
                Some(second)
            } else {
                None
            }
        },
        None => None,
    }
}

pub proof fn lemma_first_index_of(s: Seq<char>, c: char)
    ensures
        match first_index_of(s, c) {
            Some(k) => 0 <= k < s.len() && s[k] == c && forall|j: int| 0 <= j < k ==> s[j] != c,
            None => forall|j: int| 0 <= j < s.len() ==> s[j] != c,
        },
    decreases s.len(),
{
    if s.len() > 0 && s[0] != c {
        lemma_first_index_of(s.drop_first(), c);
        assert forall|j: int| 1 <= j < s.len() implies s.drop_first()[j - 1] == s[j] by {}
    }
}

proof fn lemma_first_index_of_skip(s: Seq<char>, c: char, start: int)
    requires
        0 <= start <= s.len(),
        forall|j: int| 0 <= j < start ==> s[j] != c,
    ensures
        first_index_of(s, c) == match first_index_of(s.skip(start), c) {
            Some(i) => Some(i + start),
            None => None::<int>,
        },
    decreases start,
{
    if start > 0 {
        assert(s.drop_first().skip(start - 1) =~= s.skip(start));
        lemma_first_index_of_skip(s.drop_first(), c, start - 1);
    } else {
        assert(s.skip(0) =~= s);
    }
}

proof fn lemma_trim_leading_skip(s: Seq<char>, c: char, start: int)
    requires
        0 <= start <= s.len(),
        forall|j: int| 0 <= j < start ==> s[j] == c,
    ensures
        trim_leading(s, c) == trim_leading(s.skip(start), c),
    decreases start,
{
    if start > 0 {
        assert(s.drop_first().skip(start - 1) =~= s.skip(start));
        lemma_trim_leading_skip(s.drop_first(), c, start - 1);
    } else {
        assert(s.skip(0) =~= s);
    }
}

/// Index of the first `c` in `v` at or after `from`.
fn find_from(v: &Vec<char>, c: char, from: usize) -> (r: Option<usize>)
    requires
        from <= v.len(),
    ensures
        match r {
            Some(k) => first_index_of(v@.skip(from as int), c) == Some(k - from) && from <= k < v.len(),
            None => first_index_of(v@.skip(from as int), c) is None,
        },
{
    let mut i = from;
    while i < v.len() && v[i] != c
        invariant
            from <= i <= v.len(),
            forall|j: int| from <= j < i ==> v@[j] != c,
        decreases v.len() - i,
    {
        i = i + 1;
    }
    proof {
        let s = v@.skip(from as int);
        assert forall|j: int| 0 <= j < i - from implies s[j] != c by {}
        lemma_first_index_of_skip(s, c, i - from);
        if i < v.len() {
            assert(s.skip(i - from)[0] == c);
        } else {
            assert(s.skip(i - from).len() == 0);
        }
    }
    if i < v.len() {
        Some(i)
    } else {
        None
    }
}

/// Resolves a request context from a path, for work that runs outside any
/// request (background retry, manual sync).
pub trait FsContextResolver {
    /// Recover the context from a normalized path, or fail.
    fn resolve(&self, path: &str) -> Result<FsContext, Error>;
}

/// Resolver that reads the account id from `/local/{account_id}/...` paths.
pub struct DefaultFsContextResolver;

impl FsContextResolver for DefaultFsContextResolver {
    fn resolve(&self, path: &str) -> (r: Result<FsContext, Error>)
        ensures
            match spec_resolve_account(path@) {
                Some(acct) => r matches Ok(ctx) && ctx.account_id@ == acct,
                None => r matches Err(Error::Internal(msg))
                    && msg@ == "cannot resolve FsContext from path: "@ + path@,
            },
    {
        let v = chars_of(path);
        let mut start: usize = 0;
        while start < v.len() && v[start] == '/'
            invariant
                v@ == path@,
                start <= v.len(),
                forall|j: int| 0 <= j < start ==> v@[j] == '/',
            decreases v.len() - start,
        {
            start = start + 1;
        }
        let ghost t = path@.skip(start as int);
        proof {
            lemma_trim_leading_skip(path@, '/', start as int);
            if start < v.len() {
                assert(t[0] != '/');
            }
            assert(trim_leading(t, '/') == t);
        }
        let rest = path.substring_char(start, v.len());
        assert(rest@ =~= t);
        let first_end = find_from(&v, '/', start);
        match first_end {
            Some(e) => {
                proof {
                    lemma_first_index_of(t, '/');
                }
                let first = path.substring_char(start, e);
                assert(first@ =~= t.take(e - start));
                let second_end = find_from(&v, '/', e + 1);
                let end = match second_end {
                    Some(e2) => e2,
                    None => v.len(),
                };
                let second = path.substring_char(e + 1, end);
                proof {
                    assert(t.skip(e - start + 1) =~= path@.skip(e + 1));
                    let u = path@.skip(e + 1);
                    lemma_first_index_of(u, '/');
                    if second_end is Some {
                        assert(second@ =~= u.take(end - e - 1));
                    } else {
                        assert(second@ =~= u);
                    }
                }
                if str_eq(first, "local") && second.unicode_len() > 0 {
                    return Ok(FsContext::new(String::from_str(second)));
                }
            },
            None => {},
        }
        let mut msg = String::from_str("cannot resolve FsContext from path: ");
        msg.append(path);
        Err(Error::Internal(msg))
    }
}

/// The context of the shared test account `acct`.
pub fn test_ctx() -> (r: FsContext)
    ensures
        r.account_id@ == "acct"@,
{
    FsContext::new(String::from_str("acct"))
}

/// The context of the current request, or an error when none is set.
/// The caller hands in what the task-local slot holds.
pub fn current_required_ctx(task_ctx: Option<FsContext>) -> (r: Result<FsContext, Error>)
    ensures
        match task_ctx {
            Some(c) => r == Ok::<FsContext, Error>(c),
            None => r matches Err(Error::Internal(msg)) && msg@ == "FsContext not set in current task"@,
        },
{
    match task_ctx {
        Some(c) => Ok(c),
        None => Err(Error::Internal(String::from_str("FsContext not set in current task"))),
    }
}

} // verus!
