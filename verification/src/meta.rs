//! Per-directory multi-write metadata: `.redirect.json` (files stored on
//! redirect targets) and `.sync_log.json` (latest operation per file and how
//! far each backup has acknowledged it), with the updates that file-system
//! operations make to them.

use vstd::prelude::*;
use vstd::string::*;
use crate::context::Error;
use crate::policy::clone_strings;
use crate::strmap::StrMap;

verus! {

/// Where a redirected file is physically stored.
#[derive(Debug)]
pub struct RedirectEntry {
    pub targets: Vec<String>,
}

impl RedirectEntry {
    /// An entry for the given targets.
    pub fn new(targets: Vec<String>) -> (r: RedirectEntry)
        ensures
            r.targets@ == targets@,
    {
        RedirectEntry { targets }
    }

    /// A copy of the entry.
    pub fn duplicate(&self) -> (r: RedirectEntry)
        ensures
            r.targets@ == self.targets@,
    {
        RedirectEntry { targets: clone_strings(&self.targets) }
    }
}

/// Redirect metadata of one directory, keyed by file name.
pub struct RedirectMeta {
    pub entries: StrMap<RedirectEntry>,
}

impl RedirectMeta {
    /// Metadata with no entry (what a missing or empty file stands for).
    pub fn new() -> (r: RedirectMeta)
        ensures
            r.entries.view() == Map::<Seq<char>, RedirectEntry>::empty(),
    {
        RedirectMeta { entries: StrMap::new() }
    }

    /// Record that `name` is stored on `targets`.
    pub fn set_targets(&mut self, name: String, targets: Vec<String>)
        ensures
            final(self).entries.view().remove(name@) == old(self).entries.view().remove(name@),
            final(self).entries.view().contains_key(name@),
            final(self).entries.view()[name@].targets@ == targets@,
    {
        let ghost nv = name@;
        let ghost old_map = self.entries.view();
        self.entries.insert(name, RedirectEntry::new(targets));
        assert(self.entries.view().remove(nv) =~= old_map.remove(nv));
    }
}

/// How far one backup has acknowledged a file's operations.
#[derive(Clone, Copy, Debug, PartialEq, Eq)]
pub struct BackendSyncState {
    pub acked_seq: u64,
}

/// The operation that a sync-log entry records.
#[derive(Debug)]
pub enum SyncOp {
    Create,
    Mkdir { mode: u32 },
    Remove,
    RemoveAll,
    Write,
    Truncate,
    Rename { to: String },
    Chmod { mode: u32 },
}

/// The name under which an operation is stored.
pub open spec fn op_name(op: SyncOp) -> Seq<char> {
    match op {
        SyncOp::Create => "create"@,
        SyncOp::Mkdir { .. } => "mkdir"@,
        SyncOp::Remove => "remove"@,
        SyncOp::RemoveAll => "remove_all"@,
        SyncOp::Write => "write"@,
        SyncOp::Truncate => "truncate"@,
        SyncOp::Rename { .. } => "rename"@,
        SyncOp::Chmod { .. } => "chmod"@,
    }
}

/// Each operation is logged under its own name, the one the sync-log files
/// use: `create`, `mkdir`, `remove`, `remove_all`, `write`, `truncate`,
/// `rename` and `chmod`; so two operations share a stored name exactly when
/// they are the same kind of operation.
pub proof fn lemma_op_names(a: SyncOp, b: SyncOp)
    ensures
        op_name(SyncOp::Create) == "create"@,
        forall|m: u32| op_name(SyncOp::Mkdir { mode: m }) == "mkdir"@,
        op_name(SyncOp::Remove) == "remove"@,
        op_name(SyncOp::RemoveAll) == "remove_all"@,
        op_name(SyncOp::Write) == "write"@,
        op_name(SyncOp::Truncate) == "truncate"@,
        forall|t: String| op_name(SyncOp::Rename { to: t }) == "rename"@,
        forall|m: u32| op_name(SyncOp::Chmod { mode: m }) == "chmod"@,
        op_name(a) == op_name(b) <==> {
            &&& (a is Create <==> b is Create)
            &&& (a is Mkdir <==> b is Mkdir)
            &&& (a is Remove <==> b is Remove)
            &&& (a is RemoveAll <==> b is RemoveAll)
            &&& (a is Write <==> b is Write)
            &&& (a is Truncate <==> b is Truncate)
            &&& (a is Rename <==> b is Rename)
            &&& (a is Chmod <==> b is Chmod)
        },
{
    reveal_strlit("create");
    reveal_strlit("mkdir");
    reveal_strlit("remove");
    reveal_strlit("remove_all");
    reveal_strlit("write");
    reveal_strlit("truncate");
    reveal_strlit("rename");
    reveal_strlit("chmod");
    let n = op_name(a);
    let m = op_name(b);
    if n == m {
        assert(n.len() == m.len());
        assert(n[0] == m[0]);
        assert(n.len() > 2 ==> n[2] == m[2]);
    }
}

/// The rename destination an operation stores.
pub open spec fn op_rename_to(op: SyncOp) -> Option<Seq<char>> {
    match op {
        SyncOp::Rename { to } => Some(to@),
        _ => None,
    }
}

/// The mode an operation stores.
pub open spec fn op_mode(op: SyncOp) -> Option<u32> {
    match op {
        SyncOp::Mkdir { mode } => Some(mode),
        SyncOp::Chmod { mode } => Some(mode),
        _ => None,
    }
}

/// The latest operation on one file and the acknowledgement of each backup.
#[derive(Debug)]
pub struct SyncLogEntry {
    pub latest_seq: u64,
    pub last_op: String,
    pub rename_to: Option<String>,
    pub mode: Option<u32>,
    pub backends: StrMap<BackendSyncState>,
}

/// View of an optional string.
pub open spec fn opt_view(o: Option<String>) -> Option<Seq<char>> {
    match o {
        Some(s) => Some(s@),
        None => None,
    }
}

/// The sequence number that `backend` has acknowledged for an entry
/// (0 when it has acknowledged nothing).
pub open spec fn spec_acked_seq(e: SyncLogEntry, backend: Seq<char>) -> u64 {
    if e.backends.view().contains_key(backend) {
        e.backends.view()[backend].acked_seq
    } else {
        0
    }
}

/// `backend` has acknowledged the entry's latest operation.
pub open spec fn spec_in_sync(e: SyncLogEntry, backend: Seq<char>) -> bool {
    spec_acked_seq(e, backend) >= e.latest_seq
}

/// `e1` is `e0` after `backup` acknowledged its latest operation: only that
/// backup's acknowledgement changes, to the latest sequence number.
pub open spec fn spec_ack_of(e0: SyncLogEntry, e1: SyncLogEntry, backup: Seq<char>) -> bool {
    &&& e1.latest_seq == e0.latest_seq
    &&& e1.last_op == e0.last_op
    &&& e1.rename_to == e0.rename_to
    &&& e1.mode == e0.mode
    &&& e1.backends.view() == e0.backends.view().insert(backup, BackendSyncState { acked_seq: e0.latest_seq })
}

impl SyncLogEntry {
    /// A fresh entry recording `op` at `seq`, acknowledged by no backup.
    pub fn new(seq: u64, op: SyncOp) -> (r: SyncLogEntry)
        ensures
            r.latest_seq == seq,
            r.last_op@ == op_name(op),
            opt_view(r.rename_to) == op_rename_to(op),
            r.mode == op_mode(op),
            r.backends.view() == Map::<Seq<char>, BackendSyncState>::empty(),
    {
        let (name, rename_to, mode) = match op {
            SyncOp::Create => (String::from_str("create"), None, None),
            SyncOp::Mkdir { mode } => (String::from_str("mkdir"), None, Some(mode)),
            SyncOp::Remove => (String::from_str("remove"), None, None),
            SyncOp::RemoveAll => (String::from_str("remove_all"), None, None),
            SyncOp::Write => (String::from_str("write"), None, None),
            SyncOp::Truncate => (String::from_str("truncate"), None, None),
            SyncOp::Rename { to } => (String::from_str("rename"), Some(to), None),
            SyncOp::Chmod { mode } => (String::from_str("chmod"), None, Some(mode)),
        };
        SyncLogEntry { latest_seq: seq, last_op: name, rename_to, mode, backends: StrMap::new() }
    }

    /// The sequence number `backend` has acknowledged.
    pub fn acked_seq(&self, backend: &str) -> (r: u64)
        ensures
            r == spec_acked_seq(*self, backend@),
    {
        match self.backends.get(backend) {
            Some(s) => s.acked_seq,
            None => 0,
        }
    }
}

/// Sync-log metadata of one directory, keyed by file name.
pub struct SyncLogMeta {
    pub entries: StrMap<SyncLogEntry>,
}

impl SyncLogMeta {
    /// Metadata with no entry.
    pub fn new() -> (r: SyncLogMeta)
        ensures
            r.entries.view() == Map::<Seq<char>, SyncLogEntry>::empty(),
    {
        SyncLogMeta { entries: StrMap::new() }
    }

    /// Record `op` on `name` at `seq`, replacing the earlier entry; no backup
    /// has acknowledged it yet.
    pub fn record(&mut self, name: String, seq: u64, op: SyncOp)
        ensures
            final(self).entries.view().remove(name@) == old(self).entries.view().remove(name@),
            final(self).entries.view().contains_key(name@),
            final(self).entries.view()[name@].latest_seq == seq,
            final(self).entries.view()[name@].last_op@ == op_name(op),
            opt_view(final(self).entries.view()[name@].rename_to) == op_rename_to(op),
            final(self).entries.view()[name@].mode == op_mode(op),
            final(self).entries.view()[name@].backends.view() == Map::<Seq<char>, BackendSyncState>::empty(),
            forall|b: Seq<char>| spec_acked_seq(#[trigger] final(self).entries.view()[name@], b) == 0,
    {
        let ghost nv = name@;
        let ghost old_map = self.entries.view();
        self.entries.insert(name, SyncLogEntry::new(seq, op));
        assert(self.entries.view().remove(nv) =~= old_map.remove(nv));
    }

    /// Mark that `backup` has applied the latest operation on `name`; nothing
    /// changes when `name` has no entry.
    pub fn ack(&mut self, name: &str, backup: String)
        ensures
            final(self).entries.view().remove(name@) == old(self).entries.view().remove(name@),
            final(self).entries.view().contains_key(name@) == old(self).entries.view().contains_key(name@),
            old(self).entries.view().contains_key(name@) ==> spec_ack_of(
                old(self).entries.view()[name@],
                final(self).entries.view()[name@],
                backup@,
            ),
            !old(self).entries.view().contains_key(name@) ==> final(self).entries.view() == old(self).entries.view(),
            old(self).entries.view().contains_key(name@) ==> spec_in_sync(final(self).entries.view()[name@], backup@),
            old(self).entries.view().contains_key(name@) ==> forall|b: Seq<char>| b != backup@ ==> spec_acked_seq(
                #[trigger] final(self).entries.view()[name@],
                b,
            ) == spec_acked_seq(old(self).entries.view()[name@], b),
    {
        let ghost old_map = self.entries.view();
        match self.entries.remove(name) {
            Some(e) => {
                let mut e = e;
                let latest = e.latest_seq;
                e.backends.insert(backup, BackendSyncState { acked_seq: latest });
                self.entries.insert(String::from_str(name), e);
                assert(self.entries.view().remove(name@) =~= old_map.remove(name@));
            },
            None => {},
        }
    }
}

/// A freshly logged operation (`seq > 0`, no acknowledgement) leaves every
/// backup lagging behind it.
pub proof fn lemma_logged_entry_lags(e: SyncLogEntry, backend: Seq<char>)
    requires
        e.latest_seq > 0,
        e.backends.view() == Map::<Seq<char>, BackendSyncState>::empty(),
    ensures
        !spec_in_sync(e, backend),
{
}

/// Metadata updates of a write: a redirected write records where the file
/// went and logs the write; a plain write only logs it.
pub fn apply_write(
    redirect: &mut RedirectMeta,
    log: &mut SyncLogMeta,
    name: String,
    seq: u64,
    redirect_targets: Option<Vec<String>>,
)
    ensures
        match redirect_targets {
            Some(t) => {
                &&& final(redirect).entries.view().remove(name@) == old(redirect).entries.view().remove(name@)
                &&& final(redirect).entries.view().contains_key(name@)
                &&& final(redirect).entries.view()[name@].targets@ == t@
            },
            None => final(redirect).entries.view() == old(redirect).entries.view(),
        },
        final(log).entries.view().remove(name@) == old(log).entries.view().remove(name@),
        final(log).entries.view().contains_key(name@),
        final(log).entries.view()[name@].latest_seq == seq,
        final(log).entries.view()[name@].last_op@ == "write"@,
        final(log).entries.view()[name@].rename_to is None,
        final(log).entries.view()[name@].mode is None,
        final(log).entries.view()[name@].backends.view() == Map::<Seq<char>, BackendSyncState>::empty(),
{
    match redirect_targets {
        Some(t) => {
            redirect.set_targets(String::from_str(name.as_str()), t);
        },
        None => {},
    }
    log.record(name, seq, SyncOp::Write);
}

/// Metadata updates of a rename inside one directory: the old name logs the
/// rename, and a redirect entry moves from the old name to the new one.
pub fn apply_same_dir_rename(
    redirect: &mut RedirectMeta,
    log: &mut SyncLogMeta,
    old_name: &str,
    new_name: &str,
    new_path: String,
    seq: u64,
)
    ensures
        final(log).entries.view().remove(old_name@) == old(log).entries.view().remove(old_name@),
        final(log).entries.view().contains_key(old_name@),
        final(log).entries.view()[old_name@].latest_seq == seq,
        final(log).entries.view()[old_name@].last_op@ == "rename"@,
        opt_view(final(log).entries.view()[old_name@].rename_to) == Some(new_path@),
        final(log).entries.view()[old_name@].mode is None,
        final(log).entries.view()[old_name@].backends.view() == Map::<Seq<char>, BackendSyncState>::empty(),
        final(redirect).entries.view() == if old(redirect).entries.view().contains_key(old_name@) {
            old(redirect).entries.view().remove(old_name@).insert(
                new_name@,
                old(redirect).entries.view()[old_name@],
            )
        } else {
            old(redirect).entries.view()
        },
{
    let ghost np = new_path@;
    log.record(String::from_str(old_name), seq, SyncOp::Rename { to: new_path });
    match redirect.entries.remove(old_name) {
        Some(e) => {
            redirect.entries.insert(String::from_str(new_name), e);
        },
        None => {},
    }
}

/// Metadata updates of a rename across directories: the source directory
/// logs the rename, and a redirect entry moves to the target directory under
/// the new name. The target directory's sync log is left as it is: the
/// file's arrival there is replayed through the source's rename entry.
pub fn apply_cross_dir_rename(
    src_redirect: &mut RedirectMeta,
    src_log: &mut SyncLogMeta,
    tgt_redirect: &mut RedirectMeta,
    tgt_log: &mut SyncLogMeta,
    old_name: &str,
    new_name: &str,
    new_path: String,
    seq: u64,
)
    ensures
        final(src_log).entries.view().remove(old_name@) == old(src_log).entries.view().remove(old_name@),
        final(src_log).entries.view().contains_key(old_name@),
        final(src_log).entries.view()[old_name@].latest_seq == seq,
        final(src_log).entries.view()[old_name@].last_op@ == "rename"@,
        opt_view(final(src_log).entries.view()[old_name@].rename_to) == Some(new_path@),
        final(src_log).entries.view()[old_name@].mode is None,
        final(src_log).entries.view()[old_name@].backends.view() == Map::<Seq<char>, BackendSyncState>::empty(),
        final(src_redirect).entries.view() == old(src_redirect).entries.view().remove(old_name@),
        final(tgt_redirect).entries.view() == if old(src_redirect).entries.view().contains_key(old_name@) {
            old(tgt_redirect).entries.view().insert(new_name@, old(src_redirect).entries.view()[old_name@])
        } else {
            old(tgt_redirect).entries.view()
        },
        final(tgt_log).entries.view() == old(tgt_log).entries.view(),
{
    src_log.record(String::from_str(old_name), seq, SyncOp::Rename { to: new_path });
    match src_redirect.entries.remove(old_name) {
        Some(e) => {
            tgt_redirect.entries.insert(String::from_str(new_name), e);
        },
        None => {},
    }
}

/// What to do with the outcome of reading a metadata file: `Ok(None)` means
/// "use empty metadata" (the file is missing or empty), `Ok(Some(bytes))`
/// means "decode these bytes", and an error is passed on.
pub fn meta_read_action(read: Result<Vec<u8>, Error>) -> (r: Result<Option<Vec<u8>>, Error>)
    ensures
        match read {
            Ok(data) => if data@.len() == 0 {
                r == Ok::<Option<Vec<u8>>, Error>(None)
            } else {
                r == Ok::<Option<Vec<u8>>, Error>(Some(data))
            },
            Err(Error::NotFound(_)) => r == Ok::<Option<Vec<u8>>, Error>(None),
            Err(e) => r == Err::<Option<Vec<u8>>, Error>(e),
        },
{
    match read {
        Ok(data) => {
            if data.len() == 0 {
                Ok(None)
            } else {
                Ok(Some(data))
            }
        },
        Err(Error::NotFound(_)) => Ok(None),
        Err(e) => Err(e),
    }
}

} // verus!
