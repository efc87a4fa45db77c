//! The backend set of a multi-write file system: which backends take part in
//! writes and reads, in what order reads try them, and which backups a file
//! goes to.

use vstd::prelude::*;
use vstd::string::*;
use crate::meta::RedirectEntry;
use crate::path::str_eq;
use crate::policy::{clone_strings, FilePolicy, RedirectPolicy};

verus! {

/// Role of a backend.
#[derive(Clone, Copy, Debug, PartialEq, Eq)]
pub enum BackendRole {
    Primary,
    Backup,
}

/// One operation a backup takes part in, with its read priority.
#[derive(Debug)]
pub struct OperationItemConfig {
    pub operation: String,
    pub priority: u32,
}

/// How backup writes are acknowledged.
#[derive(Clone, Copy, Debug, PartialEq, Eq)]
pub enum SyncType {
    Async,
    Sync,
}

/// A backend of the multi-write set (its file-system handle is kept by the
/// caller, at the same position).
#[derive(Debug)]
pub struct BackendEntry {
    /// Logical name, unique in the set
    pub name: String,
    pub role: BackendRole,
    /// Operations this backend takes part in (backups only)
    pub operations: Vec<OperationItemConfig>,
    /// Exclude policies (backups only)
    pub excludes: Vec<RedirectPolicy>,
}

/// Position of the first operation named `read`.
pub open spec fn first_read_op(ops: Seq<OperationItemConfig>) -> Option<int>
    decreases ops.len(),
{
    if ops.len() == 0 {
        None
    } else if ops[0].operation@ == "read"@ {
        Some(0)
    } else {
        match first_read_op(ops.drop_first()) {
            Some(k) => Some(k + 1),
            None => None,
        }
    }
}

proof fn lemma_first_read_op(ops: Seq<OperationItemConfig>)
    ensures
        match first_read_op(ops) {
            Some(k) => 0 <= k < ops.len() && ops[k].operation@ == "read"@ && forall|j: int|
                0 <= j < k ==> ops[j].operation@ != "read"@,
            None => forall|j: int| 0 <= j < ops.len() ==> ops[j].operation@ != "read"@,
        },
    decreases ops.len(),
{
    if ops.len() > 0 && ops[0].operation@ != "read"@ {
        lemma_first_read_op(ops.drop_first());
        assert forall|j: int| 1 <= j < ops.len() implies ops.drop_first()[j - 1] == ops[j] by {}
    }
}

impl BackendEntry {
    /// Some operation item is `read`.
    pub open spec fn spec_reads(&self) -> bool {
        exists|k: int| 0 <= k < self.operations@.len() && #[trigger] self.operations@[k].operation@ == "read"@
    }

    /// No operation is configured, or one of them is `write`.
    pub open spec fn spec_writes(&self) -> bool {
        self.operations@.len() == 0 || exists|k: int|
            0 <= k < self.operations@.len() && #[trigger] self.operations@[k].operation@ == "write"@
    }

    /// Priority of the first `read` item.
    pub open spec fn spec_read_priority(&self) -> Option<u32> {
        match first_read_op(self.operations@) {
            Some(k) => Some(self.operations@[k].priority),
            None => None,
        }
    }

    /// Whether the backend takes part in reads.
    pub fn participates_in_read(&self) -> (r: bool)
        ensures
            r == self.spec_reads(),
    {
        let mut i: usize = 0;
        while i < self.operations.len()
            invariant
                i <= self.operations.len(),
                forall|j: int| 0 <= j < i ==> self.operations@[j].operation@ != "read"@,
            decreases self.operations.len() - i,
        {
            if str_eq(self.operations[i].operation.as_str(), "read") {
                return true;
            }
            i = i + 1;
        }
        false
    }

    /// Whether the backend takes part in writes (backups do when no
    /// operation is configured).
    pub fn participates_in_write(&self) -> (r: bool)
        ensures
            r == self.spec_writes(),
    {
        if self.operations.len() == 0 {
            return true;
        }
        let mut i: usize = 0;
        while i < self.operations.len()
            invariant
                i <= self.operations.len(),
                forall|j: int| 0 <= j < i ==> self.operations@[j].operation@ != "write"@,
            decreases self.operations.len() - i,
        {
            if str_eq(self.operations[i].operation.as_str(), "write") {
                return true;
            }
            i = i + 1;
        }
        false
    }

    /// Read priority (lower first), or `None` when the backend does not read.
    pub fn read_priority(&self) -> (r: Option<u32>)
        ensures
            r == self.spec_read_priority(),
            r is Some <==> self.spec_reads(),
    {
        proof {
            lemma_first_read_op(self.operations@);
        }
        let mut i: usize = 0;
        while i < self.operations.len()
            invariant
                i <= self.operations.len(),
                forall|j: int| 0 <= j < i ==> self.operations@[j].operation@ != "read"@,
            decreases self.operations.len() - i,
        {
            if str_eq(self.operations[i].operation.as_str(), "read") {
                proof {
                    lemma_first_read_op(self.operations@);
                }
                return Some(self.operations[i].priority);
            }
            i = i + 1;
        }
        proof {
            lemma_first_read_op(self.operations@);
        }
        None
    }
}


/// A backup configured with no operation takes part in writes and not in
/// reads.
pub proof fn lemma_default_backup_roles(b: BackendEntry)
    requires
        b.operations@.len() == 0,
    ensures
        b.spec_writes(),
        !b.spec_reads(),
        b.spec_read_priority() is None,
{
}

/// Indices `i < n` that satisfy `pred`, in increasing order.
pub open spec fn indices_upto(n: nat, pred: spec_fn(int) -> bool) -> Seq<usize>
    decreases n,
{
    if n == 0 {
        Seq::empty()
    } else {
        let rest = indices_upto((n - 1) as nat, pred);
        if pred(n - 1) {
            rest.push((n - 1) as usize)
        } else {
            rest
        }
    }
}

/// A sequence of indices is strictly increasing.
pub open spec fn strictly_increasing(s: Seq<usize>) -> bool {
    forall|a: int, b: int| 0 <= a < b < s.len() ==> s[a] < s[b]
}

pub proof fn lemma_indices_upto(n: nat, pred: spec_fn(int) -> bool)
    requires
        n <= usize::MAX + 1,
    ensures
        strictly_increasing(indices_upto(n, pred)),
        forall|x: usize| #[trigger] indices_upto(n, pred).contains(x) <==> (x < n && pred(x as int)),
        forall|k: int| 0 <= k < indices_upto(n, pred).len() ==> #[trigger] indices_upto(n, pred)[k] < n,
    decreases n,
{
    if n > 0 {
        lemma_indices_upto((n - 1) as nat, pred);
        let rest = indices_upto((n - 1) as nat, pred);
        if pred(n - 1) {
            assert forall|x: usize| #[trigger] rest.push((n - 1) as usize).contains(x) <==> (x < n && pred(x as int)) by {
                if x == n - 1 {
                    assert(rest.push((n - 1) as usize)[rest.len() as int] == x);
                }
                if rest.push((n - 1) as usize).contains(x) && x != n - 1 {
                    let k = choose|k: int| 0 <= k < rest.len() + 1 && #[trigger] rest.push((n - 1) as usize)[k] == x;
                    assert(rest[k] == x);
                }
                if rest.contains(x) {
                    let k = choose|k: int| 0 <= k < rest.len() && #[trigger] rest[k] == x;
                    assert(rest.push((n - 1) as usize)[k] == x);
                }
            }
        }
    }
}

/// First policy (in order) that selects the file.
pub open spec fn first_matching(policies: Seq<RedirectPolicy>, path: Seq<char>, size: u64) -> Option<int>
    decreases policies.len(),
{
    if policies.len() == 0 {
        None
    } else if policies[0].spec_matches(path, size) {
        Some(0)
    } else {
        match first_matching(policies.drop_first(), path, size) {
            Some(k) => Some(k + 1),
            None => None,
        }
    }
}

proof fn lemma_first_matching(policies: Seq<RedirectPolicy>, path: Seq<char>, size: u64)
    ensures
        match first_matching(policies, path, size) {
            Some(k) => 0 <= k < policies.len() && policies[k].spec_matches(path, size) && forall|j: int|
                0 <= j < k ==> !policies[j].spec_matches(path, size),
            None => forall|j: int| 0 <= j < policies.len() ==> !policies[j].spec_matches(path, size),
        },
    decreases policies.len(),
{
    if policies.len() > 0 && !policies[0].spec_matches(path, size) {
        lemma_first_matching(policies.drop_first(), path, size);
        assert forall|j: int| 1 <= j < policies.len() implies policies.drop_first()[j - 1] == policies[j] by {}
    }
}

/// Position of the first backend called `name`.
pub open spec fn first_named(bs: Seq<BackendEntry>, name: Seq<char>) -> Option<int>
    decreases bs.len(),
{
    if bs.len() == 0 {
        None
    } else if bs[0].name@ == name {
        Some(0)
    } else {
        match first_named(bs.drop_first(), name) {
            Some(k) => Some(k + 1),
            None => None,
        }
    }
}

proof fn lemma_first_named(bs: Seq<BackendEntry>, name: Seq<char>)
    ensures
        match first_named(bs, name) {
            Some(k) => 0 <= k < bs.len() && bs[k].name@ == name && forall|j: int| 0 <= j < k ==> bs[j].name@ != name,
            None => forall|j: int| 0 <= j < bs.len() ==> bs[j].name@ != name,
        },
    decreases bs.len(),
{
    if bs.len() > 0 && bs[0].name@ != name {
        lemma_first_named(bs.drop_first(), name);
        assert forall|j: int| 1 <= j < bs.len() implies bs.drop_first()[j - 1] == bs[j] by {}
    }
}

/// Backends found by name, in the order of `names`; unknown names are skipped.
pub open spec fn spec_named_backends(bs: Seq<BackendEntry>, names: Seq<String>) -> Seq<usize>
    decreases names.len(),
{
    if names.len() == 0 {
        Seq::empty()
    } else {
        let rest = spec_named_backends(bs, names.drop_last());
        match first_named(bs, names.last()@) {
            Some(i) => rest.push(i as usize),
            None => rest,
        }
    }
}

/// The configuration of a multi-write file system: the primary backend at
/// position 0, then the backups, with redirect policies and write options.
#[derive(Debug)]
pub struct MultiWriteConfig {
    backends: Vec<BackendEntry>,
    sync_type: SyncType,
    write_ack_count: usize,
    write_ack_timeout_ms: u64,
    write_concurrency: Option<usize>,
    redirects: Vec<RedirectPolicy>,
}

impl MultiWriteConfig {
    /// The backends; the primary is at position 0.
    pub closed spec fn spec_backends(self) -> Seq<BackendEntry> {
        self.backends@
    }

    pub closed spec fn spec_redirects(self) -> Seq<RedirectPolicy> {
        self.redirects@
    }

    pub closed spec fn spec_sync_type(self) -> SyncType {
        self.sync_type
    }

    pub closed spec fn spec_write_ack_count(self) -> usize {
        self.write_ack_count
    }

    pub closed spec fn spec_write_ack_timeout_ms(self) -> u64 {
        self.write_ack_timeout_ms
    }

    pub closed spec fn spec_write_concurrency(self) -> Option<usize> {
        self.write_concurrency
    }

    /// There is a primary.
    #[verifier::type_invariant]
    pub closed spec fn inv(self) -> bool {
        self.backends@.len() >= 1
    }

    pub proof fn lemma_inv(self)
        requires
            self.inv(),
        ensures
            self.spec_backends().len() >= 1,
    {
    }

    /// Backup `i` takes part in writes.
    pub open spec fn spec_is_write_backup(self, i: int) -> bool {
        1 <= i < self.spec_backends().len() && self.spec_backends()[i].spec_writes()
    }

    /// Backup `i` has an exclude policy that selects the file.
    pub open spec fn spec_excluded(self, i: int, path: Seq<char>, size: u64) -> bool {
        exists|k: int|
            0 <= k < self.spec_backends()[i].excludes@.len() && (#[trigger] self.spec_backends()[i].excludes@[k]).spec_matches(path, size)
    }

    /// Write-enabled backups, in configuration order.
    pub open spec fn spec_write_backups(self) -> Seq<usize> {
        indices_upto(self.spec_backends().len(), |i: int| self.spec_is_write_backup(i))
    }

    /// Write-enabled backups that do not exclude the file, in configuration order.
    pub open spec fn spec_write_targets(self, path: Seq<char>, size: u64) -> Seq<usize> {
        indices_upto(
            self.spec_backends().len(),
            |i: int| self.spec_is_write_backup(i) && !self.spec_excluded(i, path, size),
        )
    }

    /// The backups a file is written to are write-enabled backups that do
    /// not exclude it (never the primary), each once and in configuration
    /// order, and every such backup is among them.
    pub proof fn lemma_write_targets(self, path: Seq<char>, size: u64)
        requires
            self.spec_backends().len() <= usize::MAX,
        ensures
            strictly_increasing(self.spec_write_targets(path, size)),
            forall|k: int| 0 <= k < self.spec_write_targets(path, size).len() ==> {
                let i = #[trigger] self.spec_write_targets(path, size)[k] as int;
                &&& 1 <= i < self.spec_backends().len()
                &&& self.spec_backends()[i].spec_writes()
                &&& !self.spec_excluded(i, path, size)
            },
            forall|i: int| 1 <= i < self.spec_backends().len() && self.spec_backends()[i].spec_writes()
                && !self.spec_excluded(i, path, size) ==> #[trigger] self.spec_write_targets(path, size).contains(
                i as usize,
            ),
    {
        let pred = |i: int| self.spec_is_write_backup(i) && !self.spec_excluded(i, path, size);
        lemma_indices_upto(self.spec_backends().len(), pred);
        let t = self.spec_write_targets(path, size);
        assert forall|k: int| 0 <= k < t.len() implies {
            let i = #[trigger] t[k] as int;
            &&& 1 <= i < self.spec_backends().len()
            &&& self.spec_backends()[i].spec_writes()
            &&& !self.spec_excluded(i, path, size)
        } by {
            assert(t.contains(t[k]));
        }
    }

    /// Backup `i` takes part in reads.
    pub open spec fn spec_is_read_backup(self, i: int) -> bool {
        1 <= i < self.spec_backends().len() && self.spec_backends()[i].spec_reads()
    }

    /// Sort key of backend `i` among read backups.
    pub open spec fn spec_read_key(self, i: int) -> int {
        match self.spec_backends()[i].spec_read_priority() {
            Some(p) => p as int,
            None => u32::MAX as int,
        }
    }

    /// Backend `a` comes before backend `b` in read order: lower priority
    /// first, configuration order among equal priorities.
    pub open spec fn spec_read_before(self, a: int, b: int) -> bool {
        self.spec_read_key(a) < self.spec_read_key(b) || (self.spec_read_key(a) == self.spec_read_key(b) && a < b)
    }

    /// `s` lists exactly the read backups, in read order.
    pub open spec fn spec_is_read_order(self, s: Seq<usize>) -> bool {
        &&& forall|a: int, b: int| 0 <= a < b < s.len() ==> self.spec_read_before(s[a] as int, s[b] as int)
        &&& forall|x: usize| #[trigger] s.contains(x) <==> self.spec_is_read_backup(x as int)
    }

    /// Build the configuration: a primary named `primary`, then the backups;
    /// `sync` selects synchronous acknowledgement and anything else
    /// asynchronous; an absent ack count waits for every target, an absent
    /// timeout means none, and a write concurrency of 0 means no limit.
    pub fn with_backends(
        backup_entries: Vec<BackendEntry>,
        redirects: Vec<RedirectPolicy>,
        sync_type_str: &str,
        write_ack_count: Option<usize>,
        write_ack_timeout_ms: Option<u64>,
        write_concurrency: Option<usize>,
    ) -> (r: MultiWriteConfig)
        ensures
            r.spec_backends().len() == backup_entries@.len() + 1,
            r.spec_backends()[0].name@ == "primary"@,
            r.spec_backends()[0].role == BackendRole::Primary,
            r.spec_backends()[0].operations@.len() == 0,
            r.spec_backends()[0].excludes@.len() == 0,
            r.spec_backends().skip(1) == backup_entries@,
            r.spec_redirects() == redirects@,
            r.spec_sync_type() == if sync_type_str@ == "sync"@ { SyncType::Sync } else { SyncType::Async },
            r.spec_write_ack_count() == match write_ack_count {
                Some(n) => n,
                None => usize::MAX,
            },
            r.spec_write_ack_timeout_ms() == match write_ack_timeout_ms {
                Some(t) => t,
                None => 0,
            },
            r.spec_write_concurrency() == match write_concurrency {
                Some(n) => if n > 0 { Some(n) } else { None },
                None => None,
            },
    {
        let mut backends: Vec<BackendEntry> = Vec::new();
        backends.push(BackendEntry {
            name: String::from_str("primary"),
            role: BackendRole::Primary,
            operations: Vec::new(),
            excludes: Vec::new(),
        });
        let mut rest = backup_entries;
        let ghost backups = rest@;
        backends.append(&mut rest);
        assert(backends@.skip(1) =~= backups);
        let sync_type = if str_eq(sync_type_str, "sync") {
            SyncType::Sync
        } else {
            SyncType::Async
        };
        let write_concurrency = match write_concurrency {
            Some(n) => if n > 0 {
                Some(n)
            } else {
                None
            },
            None => None,
        };
        MultiWriteConfig {
            backends,
            sync_type,
            write_ack_count: match write_ack_count {
                Some(n) => n,
                None => usize::MAX,
            },
            write_ack_timeout_ms: match write_ack_timeout_ms {
                Some(t) => t,
                None => 0,
            },
            write_concurrency,
            redirects,
        }
    }

    /// The backends; the primary is at position 0.
    pub fn backends(&self) -> (r: &Vec<BackendEntry>)
        ensures
            r@ == self.spec_backends(),
            r@.len() >= 1,
    {
        proof {
            use_type_invariant(self);
        }
        &self.backends
    }

    pub fn sync_type(&self) -> (r: SyncType)
        ensures
            r == self.spec_sync_type(),
    {
        self.sync_type
    }

    pub fn write_ack_timeout_ms(&self) -> (r: u64)
        ensures
            r == self.spec_write_ack_timeout_ms(),
    {
        self.write_ack_timeout_ms
    }

    pub fn write_concurrency(&self) -> (r: Option<usize>)
        ensures
            r == self.spec_write_concurrency(),
    {
        self.write_concurrency
    }

    /// The primary backend.
    pub fn primary(&self) -> (r: &BackendEntry)
        ensures
            *r == self.spec_backends()[0],
    {
        proof {
            use_type_invariant(self);
        }
        &self.backends[0]
    }

    /// Position of the first backend called `name`, the primary included.
    pub fn backup_by_name(&self, name: &str) -> (r: Option<usize>)
        ensures
            match r {
                Some(i) => Some(i as int) == first_named(self.spec_backends(), name@),
                None => first_named(self.spec_backends(), name@) is None,
            },
            r matches Some(i) ==> i < self.spec_backends().len(),
    {
        proof {
            lemma_first_named(self.spec_backends(), name@);
        }
        let mut i: usize = 0;
        while i < self.backends.len()
            invariant
                i <= self.backends.len(),
                self.backends@ == self.spec_backends(),
                forall|j: int| 0 <= j < i ==> self.spec_backends()[j].name@ != name@,
            decreases self.backends.len() - i,
        {
            if str_eq(self.backends[i].name.as_str(), name) {
                proof {
                    lemma_first_named(self.spec_backends(), name@);
                }
                return Some(i);
            }
            i = i + 1;
        }
        proof {
            lemma_first_named(self.spec_backends(), name@);
        }
        None
    }

    /// Whether backup `i` excludes the file.
    pub fn is_excluded(&self, i: usize, path: &str, size: u64) -> (r: bool)
        requires
            i < self.spec_backends().len(),
        ensures
            r == self.spec_excluded(i as int, path@, size),
    {
        let excludes = &self.backends[i].excludes;
        let mut k: usize = 0;
        while k < excludes.len()
            invariant
                k <= excludes.len(),
                *excludes == self.spec_backends()[i as int].excludes,
                forall|j: int| 0 <= j < k ==> !(#[trigger] excludes@[j]).spec_matches(path@, size),
            decreases excludes.len() - k,
        {
            if excludes[k].matches(path, size) {
                return true;
            }
            k = k + 1;
        }
        false
    }

    /// Write-enabled backups, in configuration order.
    pub fn write_backups(&self) -> (r: Vec<usize>)
        ensures
            r@ == self.spec_write_backups(),
    {
        let n = self.backends.len();
        let ghost pred = |i: int| self.spec_is_write_backup(i);
        let mut r: Vec<usize> = Vec::new();
        let mut i: usize = 0;
        while i < n
            invariant
                n == self.spec_backends().len(),
                i <= n,
                r@ == indices_upto(i as nat, pred),
                pred == (|i: int| self.spec_is_write_backup(i)),
            decreases n - i,
        {
            if i >= 1 && self.backends[i].participates_in_write() {
                r.push(i);
            }
            i = i + 1;
        }
        r
    }

    /// Write-enabled backups that do not exclude the file.
    pub fn write_targets(&self, path: &str, size: u64) -> (r: Vec<usize>)
        ensures
            r@ == self.spec_write_targets(path@, size),
    {
        let n = self.backends.len();
        let ghost pred = |i: int| self.spec_is_write_backup(i) && !self.spec_excluded(i, path@, size);
        let mut r: Vec<usize> = Vec::new();
        let mut i: usize = 0;
        while i < n
            invariant
                n == self.spec_backends().len(),
                i <= n,
                r@ == indices_upto(i as nat, pred),
                pred == (|i: int| self.spec_is_write_backup(i) && !self.spec_excluded(i, path@, size)),
            decreases n - i,
        {
            if i >= 1 && self.backends[i].participates_in_write() && !self.is_excluded(i, path, size) {
                r.push(i);
            }
            i = i + 1;
        }
        r
    }

    /// Whether any backup takes part in writes (then the background retry
    /// loop is started).
    pub fn has_write_backups(&self) -> (r: bool)
        ensures
            r == exists|i: int| self.spec_is_write_backup(i),
    {
        let w = self.write_backups();
        let n = self.backends.len();
        proof {
            lemma_indices_upto(n as nat, |i: int| self.spec_is_write_backup(i));
            if w.len() > 0 {
                assert(w@.contains(w@[0]));
            }
            if exists|i: int| self.spec_is_write_backup(i) {
                let i = choose|i: int| self.spec_is_write_backup(i);
                assert(w@.contains(i as usize));
            }
        }
        w.len() > 0
    }

    /// Sort key of backend `i` among read backups.
    fn read_key(&self, i: usize) -> (r: u32)
        requires
            i < self.spec_backends().len(),
        ensures
            r as int == self.spec_read_key(i as int),
    {
        match self.backends[i].read_priority() {
            Some(p) => p,
            None => u32::MAX,
        }
    }

    /// Read-enabled backups, by ascending priority (configuration order
    /// among equal priorities).
    pub fn read_backups_sorted(&self) -> (r: Vec<usize>)
        ensures
            self.spec_is_read_order(r@),
            forall|k: int| 0 <= k < r@.len() ==> 1 <= #[trigger] r@[k] < self.spec_backends().len(),
    {
        proof {
            use_type_invariant(self);
        }
        let n = self.backends.len();
        let mut r: Vec<usize> = Vec::new();
        let mut i: usize = 1;
        while i < n
            invariant
                n == self.spec_backends().len(),
                1 <= i <= n,
                forall|a: int, b: int| 0 <= a < b < r@.len() ==> self.spec_read_before(r@[a] as int, r@[b] as int),
                forall|x: usize| #[trigger] r@.contains(x) <==> (self.spec_is_read_backup(x as int) && x < i),
                forall|k: int| 0 <= k < r@.len() ==> 1 <= #[trigger] r@[k] < i,
            decreases n - i,
        {
            if self.backends[i].participates_in_read() {
                let key_i = self.read_key(i);
                let mut p: usize = 0;
                while p < r.len() && self.read_key(r[p]) <= key_i
                    invariant
                        n == self.spec_backends().len(),
                        1 <= i < n,
                        p <= r.len(),
                        key_i as int == self.spec_read_key(i as int),
                        forall|k: int| 0 <= k < r@.len() ==> 1 <= #[trigger] r@[k] < i,
                        forall|q: int| 0 <= q < p ==> self.spec_read_key(#[trigger] r@[q] as int) <= key_i,
                    decreases r.len() - p,
                {
                    p = p + 1;
                }
                let ghost old_r = r@;
                proof {
                    assert forall|q: int| p <= q < old_r.len() implies self.spec_read_key(#[trigger] old_r[q] as int) > key_i by {
                        if q > p {
                            assert(self.spec_read_before(old_r[p as int] as int, old_r[q] as int));
                        }
                    }
                }
                r.insert(p, i);
                proof {
                    assert(r@ == old_r.insert(p as int, i));
                    assert forall|a: int, b: int| 0 <= a < b < r@.len() implies self.spec_read_before(r@[a] as int, r@[b] as int) by {
                        if b < p {
                            assert(r@[a] == old_r[a] && r@[b] == old_r[b]);
                        } else if b == p {
                            assert(r@[a] == old_r[a]);
                        } else if a == p {
                            assert(r@[b] == old_r[b - 1]);
                        } else if a < p {
                            assert(r@[a] == old_r[a] && r@[b] == old_r[b - 1]);
                        } else {
                            assert(r@[a] == old_r[a - 1] && r@[b] == old_r[b - 1]);
                        }
                    }
                    assert forall|x: usize| #[trigger] r@.contains(x) <==> (self.spec_is_read_backup(x as int) && x < i + 1) by {
                        if x == i {
                            assert(r@[p as int] == i);
                        } else {
                            if r@.contains(x) {
                                let k = choose|k: int| 0 <= k < r@.len() && #[trigger] r@[k] == x;
                                if k < p {
                                    assert(old_r[k] == x);
                                } else {
                                    assert(k != p);
                                    assert(old_r[k - 1] == x);
                                }
                                assert(old_r.contains(x));
                            }
                            if old_r.contains(x) {
                                let k = choose|k: int| 0 <= k < old_r.len() && #[trigger] old_r[k] == x;
                                if k < p {
                                    assert(r@[k] == x);
                                } else {
                                    assert(r@[k + 1] == x);
                                }
                            }
                        }
                    }
                    assert forall|k: int| 0 <= k < r@.len() implies 1 <= #[trigger] r@[k] < i + 1 by {
                        if k < p {
                            assert(r@[k] == old_r[k]);
                        } else if k > p {
                            assert(r@[k] == old_r[k - 1]);
                        }
                    }
                }
            } else {
                proof {
                    assert forall|x: usize| #[trigger] r@.contains(x) <==> (self.spec_is_read_backup(x as int) && x < i + 1) by {
                        if x == i {
                            assert(!self.spec_is_read_backup(x as int));
                        }
                    }
                }
            }
            i = i + 1;
        }
        r
    }

    /// The order in which reads look for a file: read-enabled backups by
    /// priority, then the primary.
    pub fn read_fallback_order(&self) -> (r: Vec<usize>)
        ensures
            r@.len() >= 1,
            r@.last() == 0,
            self.spec_is_read_order(r@.drop_last()),
    {
        let mut r = self.read_backups_sorted();
        let ghost sorted = r@;
        r.push(0);
        assert(r@.drop_last() =~= sorted);
        r
    }

    /// The redirect targets of the first redirect policy that selects the
    /// file; `None` when none selects it (or the first one has no target).
    pub fn check_redirect(&self, path: &str, size: u64) -> (r: Option<Vec<String>>)
        ensures
            match first_matching(self.spec_redirects(), path@, size) {
                Some(k) => match r {
                    Some(v) => self.spec_redirects()[k].spec_target() == Some(v@),
                    None => self.spec_redirects()[k].spec_target() is None,
                },
                None => r is None,
            },
    {
        proof {
            lemma_first_matching(self.spec_redirects(), path@, size);
        }
        let mut i: usize = 0;
        while i < self.redirects.len()
            invariant
                i <= self.redirects.len(),
                self.redirects@ == self.spec_redirects(),
                forall|j: int| 0 <= j < i ==> !self.spec_redirects()[j].spec_matches(path@, size),
            decreases self.redirects.len() - i,
        {
            if self.redirects[i].matches(path, size) {
                proof {
                    lemma_first_matching(self.spec_redirects(), path@, size);
                }
                return self.redirects[i].target();
            }
            i = i + 1;
        }
        proof {
            lemma_first_matching(self.spec_redirects(), path@, size);
        }
        None
    }

    /// The backends named in `names`, in that order; names that match no
    /// backend are skipped.
    pub fn backends_named(&self, names: &Vec<String>) -> (r: Vec<usize>)
        ensures
            r@ == spec_named_backends(self.spec_backends(), names@),
            forall|k: int| 0 <= k < r@.len() ==> #[trigger] r@[k] < self.spec_backends().len(),
    {
        let mut r: Vec<usize> = Vec::new();
        let mut i: usize = 0;
        while i < names.len()
            invariant
                i <= names.len(),
                r@ == spec_named_backends(self.spec_backends(), names@.take(i as int)),
                forall|k: int| 0 <= k < r@.len() ==> #[trigger] r@[k] < self.spec_backends().len(),
            decreases names.len() - i,
        {
            let found = self.backup_by_name(names[i].as_str());
            proof {
                assert(names@.take(i + 1).drop_last() =~= names@.take(i as int));
                assert(names@.take(i + 1).last() == names@[i as int]);
            }
            match found {
                Some(b) => {
                    r.push(b);
                },
                None => {},
            }
            i = i + 1;
        }
        assert(names@.take(names.len() as int) =~= names@);
        r
    }

    /// Names of the write targets of a file (size taken as 0).
    pub open spec fn spec_write_target_names(self, path: Seq<char>) -> Seq<String> {
        self.spec_write_targets(path, 0).map_values(|i: usize| self.spec_backends()[i as int].name)
    }

    /// Names of the backups that should hold a file: the redirect targets
    /// when the file is redirected, otherwise every write-enabled backup that
    /// does not exclude it.
    pub open spec fn spec_effective_targets(self, path: Seq<char>, redirect: Option<RedirectEntry>) -> Seq<String> {
        match redirect {
            Some(e) => e.targets@,
            None => self.spec_write_target_names(path),
        }
    }

    /// The backups that should hold a redirected file are exactly its
    /// redirect targets, all of them and in their recorded order, whatever the
    /// write-enabled backups and their exclude policies are.
    pub proof fn lemma_redirected_file_targets(self, path: Seq<char>, e: RedirectEntry)
        ensures
            self.spec_effective_targets(path, Some(e)).len() == e.targets@.len(),
            forall|j: int| 0 <= j < e.targets@.len() ==> #[trigger] self.spec_effective_targets(path, Some(e))[j]
                == e.targets@[j],
    {
    }

    /// Names of the backups that should hold a file: the redirect targets
    /// when the file is redirected, otherwise every write-enabled backup that
    /// does not exclude it.
    pub fn effective_target_names(&self, path: &str, redirect: Option<&RedirectEntry>) -> (r: Vec<String>)
        ensures
            r@ == self.spec_effective_targets(path@, match redirect { Some(e) => Some(*e), None => None }),
            redirect matches Some(e) ==> r@ == e.targets@,
    {
        match redirect {
            Some(e) => clone_strings(&e.targets),
            None => {
                let t = self.write_targets(path, 0);
                let n = self.backends.len();
                proof {
                    lemma_indices_upto(
                        n as nat,
                        |i: int| self.spec_is_write_backup(i) && !self.spec_excluded(i, path@, 0),
                    );
                }
                let mut r: Vec<String> = Vec::new();
                let mut k: usize = 0;
                while k < t.len()
                    invariant
                        k <= t.len(),
                        t@ == self.spec_write_targets(path@, 0),
                        self.backends@ == self.spec_backends(),
                        forall|j: int| 0 <= j < t@.len() ==> #[trigger] t@[j] < self.spec_backends().len(),
                        r@.len() == k,
                        forall|j: int| 0 <= j < k ==> #[trigger] r@[j] == self.spec_backends()[t@[j] as int].name,
                    decreases t.len() - k,
                {
                    r.push(self.backends[t[k]].name.clone());
                    k = k + 1;
                }
                assert(r@ =~= self.spec_write_target_names(path@));
                r
            },
        }
    }

    /// How many backup acknowledgements a synchronous write of `attempted`
    /// targets needs.
    pub fn ack_required(&self, attempted: usize) -> (r: usize)
        ensures
            r == if self.spec_write_ack_count() < attempted { self.spec_write_ack_count() } else { attempted },
    {
        if self.write_ack_count < attempted {
            self.write_ack_count
        } else {
            attempted
        }
    }
}

} // verus!
