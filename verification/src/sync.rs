//! Synchronization state of backups: which files lag on which backups, the
//! status report, the manual retry report, the quorum rule of synchronous
//! fanout, and how a lagging operation is replayed.

use vstd::prelude::*;
use vstd::string::*;
use crate::config::{indices_upto, MultiWriteConfig};
use crate::context::{BackendFailure, Error};
use crate::meta::{
    op_mode, op_name, op_rename_to, opt_view, spec_ack_of, spec_acked_seq, RedirectEntry, RedirectMeta, SyncLogEntry,
    SyncLogMeta, SyncOp,
};
use crate::path::{join_path, parent_dir, spec_join_path, spec_parent_dir, str_eq};
use crate::text::{lemma_seq_lt_order, seq_lt, str_lt};

verus! {

/// Copy an optional string.
pub fn clone_opt_string(o: &Option<String>) -> (r: Option<String>)
    ensures
        r == *o,
{
    match o {
        Some(s) => Some(s.clone()),
        None => None,
    }
}

/// One backup that should hold a file, with what it has acknowledged.
#[derive(Debug)]
pub struct TargetSync {
    pub name: String,
    pub acked_seq: u64,
}

/// A file with a sync-log entry and the backups that should hold it.
#[derive(Debug)]
pub struct SyncWork {
    pub path: String,
    pub latest_seq: u64,
    pub last_op: String,
    pub rename_to: Option<String>,
    pub mode: Option<u32>,
    pub targets: Vec<TargetSync>,
}

/// The redirect entry of `name`, if any.
pub open spec fn redirect_of(redirect: RedirectMeta, name: Seq<char>) -> Option<RedirectEntry> {
    if redirect.entries.view().contains_key(name) {
        Some(redirect.entries.view()[name])
    } else {
        None
    }
}

/// `w` is the work item of file `name` in directory `dir`, whose sync-log
/// entry is `e`.
pub open spec fn spec_describes(
    w: SyncWork,
    config: MultiWriteConfig,
    dir: Seq<char>,
    name: Seq<char>,
    e: SyncLogEntry,
    redirect: RedirectMeta,
) -> bool {
    let names = config.spec_effective_targets(w.path@, redirect_of(redirect, name));
    &&& w.path@ == spec_join_path(dir, name)
    &&& w.latest_seq == e.latest_seq
    &&& w.last_op == e.last_op
    &&& w.rename_to == e.rename_to
    &&& w.mode == e.mode
    &&& w.targets@.len() == names.len()
    &&& forall|j: int| 0 <= j < names.len() ==> {
        &&& (#[trigger] w.targets@[j]).name == names[j]
        &&& w.targets@[j].acked_seq == spec_acked_seq(e, names[j]@)
    }
}

/// The work item of a redirected file lists exactly the file's redirect
/// targets, all of them and in their recorded order, each with what it has
/// acknowledged (0 when it has acknowledged nothing); so each one that has
/// not acknowledged the latest operation is reported and retried.
pub proof fn lemma_redirected_work_targets(
    w: SyncWork,
    config: MultiWriteConfig,
    dir: Seq<char>,
    name: Seq<char>,
    e: SyncLogEntry,
    redirect: RedirectMeta,
)
    requires
        spec_describes(w, config, dir, name, e, redirect),
        redirect.entries.view().contains_key(name),
    ensures
        w.targets@.len() == redirect.entries.view()[name].targets@.len(),
        forall|j: int| 0 <= j < w.targets@.len() ==> {
            &&& (#[trigger] w.targets@[j]).name == redirect.entries.view()[name].targets@[j]
            &&& w.targets@[j].acked_seq == spec_acked_seq(e, redirect.entries.view()[name].targets@[j]@)
        },
{
    config.lemma_redirected_file_targets(w.path@, redirect.entries.view()[name]);
}

/// Whether the sync-log entry of `name` in `dir` belongs to the query for
/// `path`: all of them for a directory, only the file itself otherwise.
pub open spec fn spec_in_scope(dir: Seq<char>, name: Seq<char>, path: Seq<char>, is_dir: bool) -> bool {
    is_dir || spec_join_path(dir, name) == path
}

/// `work` lists, for each sync-log entry of `dir` in scope of the query for
/// `path` (in storage order), the item that describes it.
pub open spec fn spec_dir_work(
    config: MultiWriteConfig,
    dir: Seq<char>,
    path: Seq<char>,
    is_dir: bool,
    log: SyncLogMeta,
    redirect: RedirectMeta,
    work: Seq<SyncWork>,
) -> bool {
    let ps = log.entries.pairs();
    let idx = indices_upto(ps.len(), |k: int| spec_in_scope(dir, ps[k].0, path, is_dir));
    &&& work.len() == idx.len()
    &&& forall|j: int| 0 <= j < idx.len() ==> spec_describes(
        #[trigger] work[j],
        config,
        dir,
        ps[idx[j] as int].0,
        ps[idx[j] as int].1,
        redirect,
    )
}

/// Work items of one directory: for each sync-log entry in scope (in
/// storage order), the file's path, its latest operation, and every backup
/// that should hold it with what that backup has acknowledged.
pub fn collect_dir_work(
    config: &MultiWriteConfig,
    dir: &str,
    path: &str,
    is_dir: bool,
    log: &SyncLogMeta,
    redirect: &RedirectMeta,
) -> (r: Vec<SyncWork>)
    ensures
        spec_dir_work(*config, dir@, path@, is_dir, *log, *redirect, r@),
{
    let ghost ps = log.entries.pairs();
    let ghost pred = |k: int| spec_in_scope(dir@, ps[k].0, path@, is_dir);
    let n = log.entries.len();
    let mut r: Vec<SyncWork> = Vec::new();
    let mut k: usize = 0;
    while k < n
        invariant
            n == ps.len(),
            ps == log.entries.pairs(),
            pred == (|k: int| spec_in_scope(dir@, ps[k].0, path@, is_dir)),
            k <= n,
            r@.len() == indices_upto(k as nat, pred).len(),
            forall|j: int| 0 <= j < r@.len() ==> spec_describes(
                #[trigger] r@[j],
                *config,
                dir@,
                ps[indices_upto(k as nat, pred)[j] as int].0,
                ps[indices_upto(k as nat, pred)[j] as int].1,
                *redirect,
            ),
        decreases n - k,
    {
        let name = log.entries.key_at(k);
        let e = log.entries.value_at(k);
        let file_path = join_path(dir, name.as_str());
        let ghost before = indices_upto(k as nat, pred);
        if is_dir || str_eq(file_path.as_str(), path) {
            let redir = redirect.entries.get(name.as_str());
            let names = config.effective_target_names(file_path.as_str(), redir);
            let mut targets: Vec<TargetSync> = Vec::new();
            let mut j: usize = 0;
            while j < names.len()
                invariant
                    j <= names.len(),
                    targets@.len() == j,
                    forall|t: int| 0 <= t < j ==> {
                        &&& (#[trigger] targets@[t]).name == names@[t]
                        &&& targets@[t].acked_seq == spec_acked_seq(*e, names@[t]@)
                    },
                decreases names.len() - j,
            {
                let acked = e.acked_seq(names[j].as_str());
                targets.push(TargetSync { name: names[j].clone(), acked_seq: acked });
                j = j + 1;
            }
            let w = SyncWork {
                path: file_path,
                latest_seq: e.latest_seq,
                last_op: e.last_op.clone(),
                rename_to: clone_opt_string(&e.rename_to),
                mode: e.mode,
                targets,
            };
            r.push(w);
            proof {
                assert(indices_upto((k + 1) as nat, pred) == before.push(k as usize));
                assert forall|j: int| 0 <= j < r@.len() implies spec_describes(
                    #[trigger] r@[j],
                    *config,
                    dir@,
                    ps[indices_upto((k + 1) as nat, pred)[j] as int].0,
                    ps[indices_upto((k + 1) as nat, pred)[j] as int].1,
                    *redirect,
                ) by {
                    if j < r@.len() - 1 {
                        assert(indices_upto((k + 1) as nat, pred)[j] == before[j]);
                    }
                }
            }
        } else {
            proof {
                assert(indices_upto((k + 1) as nat, pred) == before);
            }
        }
        k = k + 1;
    }
    r
}


/// Sync status of one backup of one file.
#[derive(Debug)]
pub struct TargetStatus {
    pub name: String,
    pub acked_seq: u64,
    pub in_sync: bool,
}

/// Sync status of one file.
#[derive(Debug)]
pub struct EntryStatus {
    pub path: String,
    pub latest_seq: u64,
    pub last_op: String,
    pub rename_to: Option<String>,
    pub mode: Option<u32>,
    pub all_synced: bool,
    pub targets: Vec<TargetStatus>,
}

/// Sync status of every file under a path.
#[derive(Debug)]
pub struct SyncStatusReport {
    pub path: String,
    pub entry_count: usize,
    pub pending_target_count: usize,
    pub entries: Vec<EntryStatus>,
}

/// Number of backups of `targets` that lag behind `latest`.
pub open spec fn spec_lagging(targets: Seq<TargetSync>, latest: u64) -> nat
    decreases targets.len(),
{
    if targets.len() == 0 {
        0
    } else {
        spec_lagging(targets.drop_last(), latest) + if targets.last().acked_seq < latest { 1nat } else { 0nat }
    }
}

/// Number of lagging (file, backup) pairs over all work items.
pub open spec fn spec_pending(work: Seq<SyncWork>) -> nat
    decreases work.len(),
{
    if work.len() == 0 {
        0
    } else {
        spec_pending(work.drop_last()) + spec_lagging(work.last().targets@, work.last().latest_seq)
    }
}

/// Work item `a` is listed before `b`: by path, then by position.
pub open spec fn spec_path_before(work: Seq<SyncWork>, a: int, b: int) -> bool {
    seq_lt(work[a].path@, work[b].path@) || (work[a].path@ == work[b].path@ && a < b)
}

/// `w`'s status as reported.
pub open spec fn spec_reports(s: EntryStatus, w: SyncWork) -> bool {
    &&& s.path == w.path
    &&& s.latest_seq == w.latest_seq
    &&& s.last_op == w.last_op
    &&& s.rename_to == w.rename_to
    &&& s.mode == w.mode
    &&& s.targets@.len() == w.targets@.len()
    &&& forall|j: int| 0 <= j < w.targets@.len() ==> {
        &&& (#[trigger] s.targets@[j]).name == w.targets@[j].name
        &&& s.targets@[j].acked_seq == w.targets@[j].acked_seq
        &&& s.targets@[j].in_sync == (w.targets@[j].acked_seq >= w.latest_seq)
    }
    &&& s.all_synced == forall|j: int| 0 <= j < w.targets@.len() ==> (#[trigger] w.targets@[j]).acked_seq >= w.latest_seq
}

/// Positions of the work items ordered by path.
fn order_by_path(work: &Vec<SyncWork>) -> (r: Vec<usize>)
    ensures
        forall|a: int, b: int| 0 <= a < b < r@.len() ==> spec_path_before(work@, r@[a] as int, r@[b] as int),
        forall|x: usize| #[trigger] r@.contains(x) <==> x < work@.len(),
        r@.len() == work@.len(),
        forall|k: int| 0 <= k < r@.len() ==> #[trigger] r@[k] < work@.len(),
{
    let n = work.len();
    let mut r: Vec<usize> = Vec::new();
    let mut i: usize = 0;
    while i < n
        invariant
            n == work@.len(),
            i <= n,
            r@.len() == i,
            forall|a: int, b: int| 0 <= a < b < r@.len() ==> spec_path_before(work@, r@[a] as int, r@[b] as int),
            forall|x: usize| #[trigger] r@.contains(x) <==> x < i,
            forall|k: int| 0 <= k < r@.len() ==> #[trigger] r@[k] < i,
        decreases n - i,
    {
        let mut p: usize = 0;
        while p < r.len() && !str_lt(work[i].path.as_str(), work[r[p]].path.as_str())
            invariant
                n == work@.len(),
                i < n,
                p <= r.len(),
                forall|k: int| 0 <= k < r@.len() ==> #[trigger] r@[k] < i,
                forall|q: int| 0 <= q < p ==> !seq_lt(work@[i as int].path@, work@[#[trigger] r@[q] as int].path@),
            decreases r.len() - p,
        {
            p = p + 1;
        }
        let ghost old_r = r@;
        proof {
            assert forall|q: int| p <= q < old_r.len() implies seq_lt(work@[i as int].path@, work@[#[trigger] old_r[q] as int].path@) by {
                let pi = work@[i as int].path@;
                let pp = work@[old_r[p as int] as int].path@;
                let pq = work@[old_r[q] as int].path@;
                if q > p {
                    assert(spec_path_before(work@, old_r[p as int] as int, old_r[q] as int));
                    lemma_seq_lt_order(pi, pp, pq);
                }
            }
            assert forall|q: int| 0 <= q < p implies spec_path_before(work@, #[trigger] old_r[q] as int, i as int) by {
                let pi = work@[i as int].path@;
                let pq = work@[old_r[q] as int].path@;
                lemma_seq_lt_order(pq, pi, pi);
            }
        }
        r.insert(p, i);
        proof {
            assert(r@ == old_r.insert(p as int, i));
            assert forall|a: int, b: int| 0 <= a < b < r@.len() implies spec_path_before(work@, r@[a] as int, r@[b] as int) by {
                if b < p {
                    assert(r@[a] == old_r[a] && r@[b] == old_r[b]);
                } else if b == p {
                    assert(r@[a] == old_r[a]);
                } else if a == p {
                    assert(r@[b] == old_r[b - 1]);
                } else if a < p {
                    assert(r@[a] == old_r[a] && r@[b] == old_r[b - 1]);
                } else {
                    assert(r@[a] == old_r[a - 1] && r@[b] == old_r[b - 1]);
                }
            }
            assert forall|x: usize| #[trigger] r@.contains(x) <==> x < i + 1 by {
                if x == i {
                    assert(r@[p as int] == i);
                } else {
                    if r@.contains(x) {
                        let k = choose|k: int| 0 <= k < r@.len() && #[trigger] r@[k] == x;
                        if k < p {
                            assert(old_r[k] == x);
                        } else {
                            assert(k != p);
                            assert(old_r[k - 1] == x);
                        }
                        assert(old_r.contains(x));
                    }
                    if x < i {
                        assert(old_r.contains(x));
                        let k = choose|k: int| 0 <= k < old_r.len() && #[trigger] old_r[k] == x;
                        if k < p {
                            assert(r@[k] == x);
                        } else {
                            assert(r@[k + 1] == x);
                        }
                    }
                }
            }
            assert forall|k: int| 0 <= k < r@.len() implies #[trigger] r@[k] < i + 1 by {
                if k < p {
                    assert(r@[k] == old_r[k]);
                } else if k > p {
                    assert(r@[k] == old_r[k - 1]);
                }
            }
        }
        i = i + 1;
    }
    r
}

/// Status of one work item.
fn entry_status(w: &SyncWork) -> (r: EntryStatus)
    ensures
        spec_reports(r, *w),
{
    let mut targets: Vec<TargetStatus> = Vec::new();
    let mut all_synced = true;
    let mut j: usize = 0;
    while j < w.targets.len()
        invariant
            j <= w.targets.len(),
            targets@.len() == j,
            forall|t: int| 0 <= t < j ==> {
                &&& (#[trigger] targets@[t]).name == w.targets@[t].name
                &&& targets@[t].acked_seq == w.targets@[t].acked_seq
                &&& targets@[t].in_sync == (w.targets@[t].acked_seq >= w.latest_seq)
            },
            all_synced == forall|t: int| 0 <= t < j ==> (#[trigger] w.targets@[t]).acked_seq >= w.latest_seq,
        decreases w.targets.len() - j,
    {
        let acked = w.targets[j].acked_seq;
        let in_sync = acked >= w.latest_seq;
        if !in_sync {
            all_synced = false;
        }
        targets.push(TargetStatus { name: w.targets[j].name.clone(), acked_seq: acked, in_sync });
        j = j + 1;
    }
    EntryStatus {
        path: w.path.clone(),
        latest_seq: w.latest_seq,
        last_op: w.last_op.clone(),
        rename_to: clone_opt_string(&w.rename_to),
        mode: w.mode,
        all_synced,
        targets,
    }
}

/// Number of lagging backups of one work item.
fn lagging_count(w: &SyncWork) -> (r: usize)
    ensures
        r == spec_lagging(w.targets@, w.latest_seq),
{
    let mut c: usize = 0;
    let mut j: usize = 0;
    while j < w.targets.len()
        invariant
            j <= w.targets.len(),
            c == spec_lagging(w.targets@.take(j as int), w.latest_seq),
            c <= j,
        decreases w.targets.len() - j,
    {
        proof {
            assert(w.targets@.take(j + 1).drop_last() =~= w.targets@.take(j as int));
        }
        if w.targets[j].acked_seq < w.latest_seq {
            c = c + 1;
        }
        j = j + 1;
    }
    assert(w.targets@.take(w.targets@.len() as int) =~= w.targets@);
    c
}

/// The status report of `path`: every work item (ordered by path) with
/// each backup's acknowledgement and whether it is in sync, the number of
/// items, and the number of lagging (file, backup) pairs.
pub fn sync_status_report(path: String, work: &Vec<SyncWork>) -> (r: SyncStatusReport)
    requires
        spec_pending(work@) <= usize::MAX,
    ensures
        r.path == path,
        r.entry_count == work@.len(),
        r.pending_target_count == spec_pending(work@),
        r.entries@.len() == work@.len(),
        exists|order: Seq<usize>| #![trigger order.len()] {
            &&& order.len() == work@.len()
            &&& forall|x: usize| #[trigger] order.contains(x) <==> x < work@.len()
            &&& forall|a: int, b: int| 0 <= a < b < order.len() ==> spec_path_before(work@, order[a] as int, order[b] as int)
            &&& forall|k: int| 0 <= k < order.len() ==> spec_reports(#[trigger] r.entries@[k], work@[order[k] as int])
        },
{
    let order = order_by_path(work);
    let mut entries: Vec<EntryStatus> = Vec::new();
    let mut k: usize = 0;
    while k < order.len()
        invariant
            k <= order.len(),
            order@.len() == work@.len(),
            forall|j: int| 0 <= j < order@.len() ==> #[trigger] order@[j] < work@.len(),
            entries@.len() == k,
            forall|j: int| 0 <= j < k ==> spec_reports(#[trigger] entries@[j], work@[order@[j] as int]),
        decreases order.len() - k,
    {
        entries.push(entry_status(&work[order[k]]));
        k = k + 1;
    }
    let mut pending: usize = 0;
    let mut i: usize = 0;
    while i < work.len()
        invariant
            i <= work.len(),
            spec_pending(work@) <= usize::MAX,
            pending == spec_pending(work@.take(i as int)),
        decreases work.len() - i,
    {
        proof {
            assert(work@.take(i + 1).drop_last() =~= work@.take(i as int));
            lemma_pending_prefix(work@, i + 1);
        }
        let c = lagging_count(&work[i]);
        pending = pending + c;
        i = i + 1;
    }
    assert(work@.take(work@.len() as int) =~= work@);
    assert(order@.len() == work@.len());
    SyncStatusReport { path, entry_count: work.len(), pending_target_count: pending, entries }
}

proof fn lemma_lagging_zero(targets: Seq<TargetSync>, latest: u64)
    ensures
        (spec_lagging(targets, latest) == 0) <==> forall|j: int| 0 <= j < targets.len() ==> (#[trigger] targets[j]).acked_seq >= latest,
    decreases targets.len(),
{
    if targets.len() > 0 {
        lemma_lagging_zero(targets.drop_last(), latest);
        if spec_lagging(targets, latest) == 0 {
            assert forall|j: int| 0 <= j < targets.len() implies (#[trigger] targets[j]).acked_seq >= latest by {
                if j < targets.len() - 1 {
                    assert(targets.drop_last()[j] == targets[j]);
                }
            }
        } else if forall|j: int| 0 <= j < targets.len() ==> (#[trigger] targets[j]).acked_seq >= latest {
            assert forall|j: int| 0 <= j < targets.len() - 1 implies (#[trigger] targets.drop_last()[j]).acked_seq >= latest by {
                assert(targets.drop_last()[j] == targets[j]);
            }
            assert(targets[targets.len() - 1].acked_seq >= latest);
        }
    }
}

/// A status report has no lagging backup exactly when every reported file
/// is in sync on all its backups.
pub proof fn lemma_no_pending_iff_all_synced(work: Seq<SyncWork>)
    ensures
        (spec_pending(work) == 0) <==> forall|i: int, j: int|
            0 <= i < work.len() && 0 <= j < work[i].targets@.len() ==> (#[trigger] work[i].targets@[j]).acked_seq
                >= work[i].latest_seq,
    decreases work.len(),
{
    if work.len() > 0 {
        let rest = work.drop_last();
        let last = work.last();
        lemma_no_pending_iff_all_synced(rest);
        lemma_lagging_zero(last.targets@, last.latest_seq);
        if spec_pending(work) == 0 {
            assert forall|i: int, j: int|
                0 <= i < work.len() && 0 <= j < work[i].targets@.len() implies (#[trigger] work[i].targets@[j]).acked_seq
                >= work[i].latest_seq by {
                if i < work.len() - 1 {
                    assert(rest[i] == work[i]);
                    assert(rest[i].targets@[j] == work[i].targets@[j]);
                } else {
                    assert(last.targets@[j] == work[i].targets@[j]);
                }
            }
        } else if forall|i: int, j: int|
            0 <= i < work.len() && 0 <= j < work[i].targets@.len() ==> (#[trigger] work[i].targets@[j]).acked_seq
                >= work[i].latest_seq {
            assert forall|i: int, j: int|
                0 <= i < rest.len() && 0 <= j < rest[i].targets@.len() implies (#[trigger] rest[i].targets@[j]).acked_seq
                >= rest[i].latest_seq by {
                assert(rest[i] == work[i]);
                assert(work[i].targets@[j].acked_seq >= work[i].latest_seq);
            }
            assert forall|j: int| 0 <= j < last.targets@.len() implies (#[trigger] last.targets@[j]).acked_seq >= last.latest_seq by {
                assert(work[work.len() - 1].targets@[j].acked_seq >= work[work.len() - 1].latest_seq);
            }
        }
    }
}

/// `e1` is `e0` after the backups in `acked` acknowledged its latest
/// operation, one after another, and nothing else happened to the entry.
pub open spec fn spec_acked_by(e0: SyncLogEntry, e1: SyncLogEntry, acked: Seq<Seq<char>>) -> bool {
    &&& e1.latest_seq == e0.latest_seq
    &&& e1.last_op == e0.last_op
    &&& e1.rename_to == e0.rename_to
    &&& e1.mode == e0.mode
    &&& forall|b: Seq<char>| #[trigger] spec_acked_seq(e1, b) == if acked.contains(b) {
        e0.latest_seq
    } else {
        spec_acked_seq(e0, b)
    }
}

/// No acknowledgement leaves an entry as it is.
pub proof fn lemma_acked_by_none(e: SyncLogEntry)
    ensures
        spec_acked_by(e, e, Seq::empty()),
{
}

/// Acknowledgements accumulate: one more `ack` of `backup` extends the
/// backups that have acknowledged the entry's latest operation.
pub proof fn lemma_ack_accumulates(
    e0: SyncLogEntry,
    e1: SyncLogEntry,
    e2: SyncLogEntry,
    acked: Seq<Seq<char>>,
    backup: Seq<char>,
)
    requires
        spec_acked_by(e0, e1, acked),
        spec_ack_of(e1, e2, backup),
    ensures
        spec_acked_by(e0, e2, acked.push(backup)),
{
    assert forall|b: Seq<char>| #[trigger] spec_acked_seq(e2, b) == if acked.push(backup).contains(b) {
        e0.latest_seq
    } else {
        spec_acked_seq(e0, b)
    } by {
        assert(acked.push(backup).contains(b) <==> (acked.contains(b) || b == backup)) by {
            if acked.push(backup).contains(b) {
                let k = choose|k: int| 0 <= k < acked.len() + 1 && acked.push(backup)[k] == b;
                if k < acked.len() {
                    assert(acked[k] == b);
                }
            }
            if acked.contains(b) {
                let k = choose|k: int| 0 <= k < acked.len() && acked[k] == b;
                assert(acked.push(backup)[k] == b);
            }
            if b == backup {
                assert(acked.push(backup)[acked.len() as int] == b);
            }
        }
        let m1 = e1.backends.view();
        let m2 = e2.backends.view();
        if b == backup {
            assert(m2.contains_key(b) && m2[b].acked_seq == e1.latest_seq);
        } else {
            assert(m2.contains_key(b) == m1.contains_key(b));
            if m1.contains_key(b) {
                assert(m2[b] == m1[b]);
            }
            assert(spec_acked_seq(e2, b) == spec_acked_seq(e1, b));
        }
    }
}

proof fn lemma_pending_prefix(work: Seq<SyncWork>, n: int)
    requires
        0 <= n <= work.len(),
    ensures
        spec_pending(work.take(n)) <= spec_pending(work),
    decreases work.len() - n,
{
    if n < work.len() {
        lemma_pending_prefix(work, n + 1);
        assert(work.take(n + 1).drop_last() =~= work.take(n));
    } else {
        assert(work.take(n) =~= work);
    }
}


/// `s` without repetitions, keeping first occurrences in order.
pub open spec fn spec_dedup(s: Seq<Seq<char>>) -> Seq<Seq<char>>
    decreases s.len(),
{
    if s.len() == 0 {
        Seq::empty()
    } else {
        let rest = spec_dedup(s.drop_last());
        if rest.contains(s.last()) {
            rest
        } else {
            rest.push(s.last())
        }
    }
}

/// Directories whose metadata a sync query for `path` reads: the path and
/// each of its subdirectories (first occurrence kept) for a directory, the
/// parent directory for a file.
pub fn sync_scan_dirs(path: &str, is_dir: bool, subdirs: &Vec<String>) -> (r: Vec<String>)
    ensures
        r@.map_values(|d: String| d@) == if is_dir {
            spec_dedup(seq![path@] + subdirs@.map_values(|d: String| d@))
        } else {
            seq![spec_parent_dir(path@)]
        },
{
    let mut r: Vec<String> = Vec::new();
    if !is_dir {
        r.push(parent_dir(path));
        assert(r@.map_values(|d: String| d@) =~= seq![spec_parent_dir(path@)]);
        return r;
    }
    let ghost all = seq![path@] + subdirs@.map_values(|d: String| d@);
    r.push(String::from_str(path));
    proof {
        assert(all.take(1).drop_last() =~= Seq::<Seq<char>>::empty());
        assert(all.take(1).last() == path@);
        assert(spec_dedup(Seq::<Seq<char>>::empty()) =~= Seq::<Seq<char>>::empty());
        assert(r@.map_values(|d: String| d@) =~= spec_dedup(all.take(1)));
    }
    let mut i: usize = 0;
    while i < subdirs.len()
        invariant
            i <= subdirs.len(),
            all == seq![path@] + subdirs@.map_values(|d: String| d@),
            r@.map_values(|d: String| d@) == spec_dedup(all.take(i + 1)),
        decreases subdirs.len() - i,
    {
        let ghost rv = r@.map_values(|d: String| d@);
        proof {
            assert(all.take(i + 2).drop_last() =~= all.take(i + 1));
            assert(all.take(i + 2).last() == subdirs@[i as int]@);
        }
        let mut seen = false;
        let mut k: usize = 0;
        while k < r.len()
            invariant
                i < subdirs.len(),
                k <= r.len(),
                rv == r@.map_values(|d: String| d@),
                seen == exists|t: int| 0 <= t < k && rv[t] == subdirs@[i as int]@,
            decreases r.len() - k,
        {
            assert(rv[k as int] == r@[k as int]@);
            if str_eq(r[k].as_str(), subdirs[i].as_str()) {
                seen = true;
            }
            k = k + 1;
        }
        proof {
            let x = subdirs@[i as int]@;
            if seen {
                let t = choose|t: int| 0 <= t < r@.len() && rv[t] == x;
                assert(rv.contains(x));
            } else {
                assert(!rv.contains(x));
            }
            assert(spec_dedup(all.take(i + 2)) == if rv.contains(x) { rv } else { rv.push(x) });
        }
        if !seen {
            r.push(subdirs[i].clone());
            assert(r@.map_values(|d: String| d@) =~= rv.push(subdirs@[i as int]@));
        }
        i = i + 1;
    }
    assert(all.take(subdirs.len() + 1) =~= all);
    r
}

/// Replays attempted per lagging backup in one round.
pub const MAX_RETRY_PER_ROUND: usize = 3;

/// A backup lags when it has acknowledged less than the latest operation.
pub fn needs_retry(acked_seq: u64, latest_seq: u64) -> (r: bool)
    ensures
        r == (acked_seq < latest_seq),
{
    acked_seq < latest_seq
}

/// Outcome of replaying a lagging backup.
#[derive(Debug)]
pub enum ReplayResult {
    Succeeded,
    /// Every attempt failed; the last error's text, if any.
    Failed(Option<String>),
}

/// What a manual retry did for one backup of one file.
#[derive(Clone, Copy, Debug, PartialEq, Eq)]
pub enum RetryStatus {
    Skipped,
    Retried,
    Failed,
}

/// One line of the retry report.
#[derive(Debug)]
pub struct RetryResult {
    pub path: String,
    pub target: String,
    pub status: RetryStatus,
    pub latest_seq: u64,
    pub acked_seq: u64,
    pub error: Option<String>,
}

/// The report of a manual retry under a path.
#[derive(Debug)]
pub struct SyncRetryReport {
    pub path: String,
    pub retried: usize,
    pub failed: usize,
    pub skipped: usize,
    pub results: Vec<RetryResult>,
}

impl SyncRetryReport {
    /// An empty report for `path`.
    pub fn new(path: String) -> (r: SyncRetryReport)
        ensures
            r.path == path,
            r.retried == 0,
            r.failed == 0,
            r.skipped == 0,
            r.results@.len() == 0,
    {
        SyncRetryReport { path, retried: 0, failed: 0, skipped: 0, results: Vec::new() }
    }

    /// Record one backup of one file: skipped when it is in sync, retried
    /// when its replay succeeded (it is then at the latest operation), failed
    /// otherwise, with the last error or "unknown replay error".
    pub fn record(
        &mut self,
        path: String,
        target: String,
        latest_seq: u64,
        acked_seq: u64,
        replay: Option<ReplayResult>,
    )
        requires
            acked_seq < latest_seq ==> replay is Some,
            old(self).retried < usize::MAX,
            old(self).failed < usize::MAX,
            old(self).skipped < usize::MAX,
        ensures
            final(self).path == old(self).path,
            final(self).results@.len() == old(self).results@.len() + 1,
            final(self).results@.drop_last() == old(self).results@,
            final(self).results@.last().path == path,
            final(self).results@.last().target == target,
            final(self).results@.last().latest_seq == latest_seq,
            if acked_seq >= latest_seq {
                &&& final(self).results@.last().status == RetryStatus::Skipped
                &&& final(self).results@.last().acked_seq == acked_seq
                &&& final(self).results@.last().error is None
                &&& final(self).skipped == old(self).skipped + 1
                &&& final(self).retried == old(self).retried
                &&& final(self).failed == old(self).failed
            } else {
                match replay {
                    Some(ReplayResult::Succeeded) => {
                        &&& final(self).results@.last().status == RetryStatus::Retried
                        &&& final(self).results@.last().acked_seq == latest_seq
                        &&& final(self).results@.last().error is None
                        &&& final(self).retried == old(self).retried + 1
                        &&& final(self).skipped == old(self).skipped
                        &&& final(self).failed == old(self).failed
                    },
                    Some(ReplayResult::Failed(err)) => {
                        &&& final(self).results@.last().status == RetryStatus::Failed
                        &&& final(self).results@.last().acked_seq == acked_seq
                        &&& final(self).results@.last().error matches Some(m) && m@ == match err {
                            Some(e) => e@,
                            None => "unknown replay error"@,
                        }
                        &&& final(self).failed == old(self).failed + 1
                        &&& final(self).skipped == old(self).skipped
                        &&& final(self).retried == old(self).retried
                    },
                    None => false,
                }
            },
    {
        let line = if acked_seq >= latest_seq {
            self.skipped = self.skipped + 1;
            RetryResult { path, target, status: RetryStatus::Skipped, latest_seq, acked_seq, error: None }
        } else {
            match replay {
                Some(ReplayResult::Succeeded) => {
                    self.retried = self.retried + 1;
                    RetryResult {
                        path,
                        target,
                        status: RetryStatus::Retried,
                        latest_seq,
                        acked_seq: latest_seq,
                        error: None,
                    }
                },
                Some(ReplayResult::Failed(err)) => {
                    self.failed = self.failed + 1;
                    let msg = match err {
                        Some(e) => e,
                        None => String::from_str("unknown replay error"),
                    };
                    RetryResult {
                        path,
                        target,
                        status: RetryStatus::Failed,
                        latest_seq,
                        acked_seq,
                        error: Some(msg),
                    }
                },
                None => {
                    assert(false);
                    RetryResult { path, target, status: RetryStatus::Skipped, latest_seq, acked_seq, error: None }
                },
            }
        };
        self.results.push(line);
    }
}

/// Outcome of one backup write in a fanout.
#[derive(Debug)]
pub enum FanoutOutcome {
    Succeeded,
    Failed(Error),
    TimedOut,
    /// The task running the write did not complete; its text.
    Aborted(String),
}

/// Kind and text of a failed outcome.
pub open spec fn spec_outcome_failure(name: Seq<char>, o: FanoutOutcome) -> (Seq<char>, Seq<char>, Seq<char>) {
    match o {
        FanoutOutcome::Failed(e) => (name, e.spec_kind(), e.spec_message()),
        FanoutOutcome::TimedOut => (name, "timeout"@, "timeout"@),
        FanoutOutcome::Aborted(m) => (name, "join"@, "join error: "@ + m@),
        FanoutOutcome::Succeeded => (name, Seq::empty(), Seq::empty()),
    }
}

/// Number of successful outcomes.
pub open spec fn spec_successes(outs: Seq<(String, FanoutOutcome)>) -> nat
    decreases outs.len(),
{
    if outs.len() == 0 {
        0
    } else {
        spec_successes(outs.drop_last()) + if outs.last().1 is Succeeded { 1nat } else { 0nat }
    }
}

/// The failed outcomes, in order, as (backend, kind, message).
pub open spec fn spec_failures(outs: Seq<(String, FanoutOutcome)>) -> Seq<(Seq<char>, Seq<char>, Seq<char>)>
    decreases outs.len(),
{
    if outs.len() == 0 {
        Seq::empty()
    } else {
        let rest = spec_failures(outs.drop_last());
        if outs.last().1 is Succeeded {
            rest
        } else {
            rest.push(spec_outcome_failure(outs.last().0@, outs.last().1))
        }
    }
}

proof fn lemma_successes_bound(outs: Seq<(String, FanoutOutcome)>)
    ensures
        spec_successes(outs) <= outs.len(),
    decreases outs.len(),
{
    if outs.len() > 0 {
        lemma_successes_bound(outs.drop_last());
    }
}

/// Decide a synchronous fanout: it succeeds when at least `required`
/// backups acknowledged; otherwise the error tells how many succeeded, how
/// many were required and attempted, and why each other backup failed.
pub fn quorum_result(required: usize, outcomes: Vec<(String, FanoutOutcome)>) -> (r: Result<(), Error>)
    ensures
        spec_successes(outcomes@) >= required ==> r is Ok,
        spec_successes(outcomes@) < required ==> (r matches Err(Error::SyncWriteQuorum { succeeded, required: req, attempted, failures }) && {
            &&& succeeded == spec_successes(outcomes@)
            &&& req == required
            &&& attempted == outcomes@.len()
            &&& failures@.map_values(|f: BackendFailure| (f.backend@, f.kind@, f.message@)) == spec_failures(outcomes@)
        }),
{
    let attempted = outcomes.len();
    let ghost outs = outcomes@;
    let mut successes: usize = 0;
    let mut failures: Vec<BackendFailure> = Vec::new();
    let mut i: usize = 0;
    while i < attempted
        invariant
            attempted == outs.len(),
            outs == outcomes@,
            i <= attempted,
            successes == spec_successes(outs.take(i as int)),
            successes <= i,
            failures@.map_values(|f: BackendFailure| (f.backend@, f.kind@, f.message@)) == spec_failures(outs.take(i as int)),
        decreases attempted - i,
    {
        proof {
            assert(outs.take(i + 1).drop_last() =~= outs.take(i as int));
            assert(outs.take(i + 1).last() == outs[i as int]);
        }
        let name = &outcomes[i].0;
        let ghost fv = failures@.map_values(|f: BackendFailure| (f.backend@, f.kind@, f.message@));
        match &outcomes[i].1 {
            FanoutOutcome::Succeeded => {
                successes = successes + 1;
            },
            FanoutOutcome::Failed(e) => {
                let kind = e.kind();
                let message = e.message();
                failures.push(BackendFailure { backend: name.clone(), kind, message });
            },
            FanoutOutcome::TimedOut => {
                failures.push(BackendFailure {
                    backend: name.clone(),
                    kind: String::from_str("timeout"),
                    message: String::from_str("timeout"),
                });
            },
            FanoutOutcome::Aborted(m) => {
                let mut message = String::from_str("join error: ");
                message.append(m.as_str());
                failures.push(BackendFailure { backend: name.clone(), kind: String::from_str("join"), message });
            },
        }
        proof {
            if !(outs[i as int].1 is Succeeded) {
                assert(failures@.map_values(|f: BackendFailure| (f.backend@, f.kind@, f.message@)) =~= fv.push(
                    spec_outcome_failure(outs[i as int].0@, outs[i as int].1),
                ));
            }
        }
        i = i + 1;
    }
    assert(outs.take(attempted as int) =~= outs);
    if successes >= required {
        Ok(())
    } else {
        Err(Error::SyncWriteQuorum { succeeded: successes, required, attempted, failures })
    }
}

/// What replaying a file's latest operation on a lagging backup does.
#[derive(Debug)]
pub enum ReplayStep {
    /// Copy the current content (read from the redirect target or the primary).
    CopyContent,
    Create,
    Mkdir { mode: u32 },
    /// Remove; a failure is ignored (the file may already be gone).
    Remove,
    /// Remove recursively; a failure is ignored.
    RemoveAll,
    /// Rename to the recorded destination; a failure is ignored.
    Rename { to: String },
    Chmod { mode: u32 },
    /// Nothing to do (unknown operation, or a rename without destination).
    Nothing,
}

/// The replay step of a recorded operation.
pub open spec fn spec_replay_step(last_op: Seq<char>, rename_to: Option<String>, mode: Option<u32>) -> ReplayStep {
    if last_op == "write"@ || last_op == "truncate"@ {
        ReplayStep::CopyContent
    } else if last_op == "create"@ {
        ReplayStep::Create
    } else if last_op == "mkdir"@ {
        ReplayStep::Mkdir { mode: match mode { Some(m) => m, None => 0o755 } }
    } else if last_op == "remove"@ {
        ReplayStep::Remove
    } else if last_op == "remove_all"@ {
        ReplayStep::RemoveAll
    } else if last_op == "rename"@ {
        match rename_to {
            Some(t) => ReplayStep::Rename { to: t },
            None => ReplayStep::Nothing,
        }
    } else if last_op == "chmod"@ {
        ReplayStep::Chmod { mode: match mode { Some(m) => m, None => 0o644 } }
    } else {
        ReplayStep::Nothing
    }
}

/// Replaying a logged operation performs that same operation on the
/// lagging backup: a logged create creates, mkdir makes the directory with
/// the logged mode, remove and remove_all remove, write and truncate copy
/// the current content, rename renames to the logged destination, and chmod
/// sets the logged mode.
pub proof fn lemma_replay_performs_logged_op(e: SyncLogEntry, op: SyncOp)
    requires
        e.last_op@ == op_name(op),
        opt_view(e.rename_to) == op_rename_to(op),
        e.mode == op_mode(op),
    ensures
        ({
            let step = spec_replay_step(e.last_op@, e.rename_to, e.mode);
            match op {
                SyncOp::Create => step is Create,
                SyncOp::Mkdir { mode } => step == ReplayStep::Mkdir { mode },
                SyncOp::Remove => step is Remove,
                SyncOp::RemoveAll => step is RemoveAll,
                SyncOp::Write => step is CopyContent,
                SyncOp::Truncate => step is CopyContent,
                SyncOp::Rename { .. } => step is Rename,
                SyncOp::Chmod { mode } => step == ReplayStep::Chmod { mode },
            }
        }),
        op is Rename ==> spec_replay_step(e.last_op@, e.rename_to, e.mode)->Rename_to@ == op->Rename_to@,
{
    crate::meta::lemma_op_names(op, SyncOp::Create);
    crate::meta::lemma_op_names(op, SyncOp::Mkdir { mode: 0 });
    crate::meta::lemma_op_names(op, SyncOp::Remove);
    crate::meta::lemma_op_names(op, SyncOp::RemoveAll);
    crate::meta::lemma_op_names(op, SyncOp::Write);
    crate::meta::lemma_op_names(op, SyncOp::Truncate);
    crate::meta::lemma_op_names(op, SyncOp::Chmod { mode: 0 });
    assert(op_name(SyncOp::Mkdir { mode: 0 }) == "mkdir"@);
    assert(op_name(SyncOp::Chmod { mode: 0 }) == "chmod"@);
    match op {
        SyncOp::Rename { to } => {
            assert(op_name(op) == "rename"@);
            assert(e.last_op@ != "write"@ && e.last_op@ != "truncate"@ && e.last_op@ != "create"@);
            assert(e.last_op@ != "mkdir"@ && e.last_op@ != "remove"@ && e.last_op@ != "remove_all"@);
            assert(e.rename_to is Some);
            let t = e.rename_to->0;
            assert(t@ == to@);
            assert(spec_replay_step(e.last_op@, e.rename_to, e.mode) == ReplayStep::Rename { to: t });
        },
        SyncOp::Chmod { .. } => {
            reveal_strlit("chmod");
            reveal_strlit("rename");
            assert(e.last_op@[0] != "rename"@[0]);
        },
        _ => {},
    }
}

/// Plan the replay of a recorded operation on the backup named
/// `backup_name`: the backup's position and the step, or an error when no
/// backend has that name.
pub fn plan_replay(
    config: &MultiWriteConfig,
    backup_name: &str,
    last_op: &str,
    rename_to: &Option<String>,
    mode: Option<u32>,
) -> (r: Result<(usize, ReplayStep), Error>)
    ensures
        match crate::config::first_named(config.spec_backends(), backup_name@) {
            Some(i) => r matches Ok((b, step)) && b == i && step == spec_replay_step(last_op@, *rename_to, mode),
            None => r matches Err(Error::Internal(m)) && m@ == "backup '"@ + backup_name@ + "' not found"@,
        },
{
    let b = match config.backup_by_name(backup_name) {
        Some(b) => b,
        None => {
            let mut m = String::from_str("backup '");
            m.append(backup_name);
            m.append("' not found");
            return Err(Error::Internal(m));
        },
    };
    let step = if str_eq(last_op, "write") || str_eq(last_op, "truncate") {
        ReplayStep::CopyContent
    } else if str_eq(last_op, "create") {
        ReplayStep::Create
    } else if str_eq(last_op, "mkdir") {
        ReplayStep::Mkdir { mode: match mode { Some(m) => m, None => 0o755 } }
    } else if str_eq(last_op, "remove") {
        ReplayStep::Remove
    } else if str_eq(last_op, "remove_all") {
        ReplayStep::RemoveAll
    } else if str_eq(last_op, "rename") {
        match rename_to {
            Some(t) => ReplayStep::Rename { to: t.clone() },
            None => ReplayStep::Nothing,
        }
    } else if str_eq(last_op, "chmod") {
        ReplayStep::Chmod { mode: match mode { Some(m) => m, None => 0o644 } }
    } else {
        ReplayStep::Nothing
    };
    Ok((b, step))
}

/// Whether a failure of the step is ignored (the backup is still marked as
/// in sync).
pub fn replay_failure_ignored(step: &ReplayStep) -> (r: bool)
    ensures
        r == (*step is Remove || *step is RemoveAll || *step is Rename),
{
    match step {
        ReplayStep::Remove => true,
        ReplayStep::RemoveAll => true,
        ReplayStep::Rename { .. } => true,
        _ => false,
    }
}

/// Pair `a` comes before pair `b`: by work item, then by target.
pub open spec fn spec_pair_before(a: (usize, usize), b: (usize, usize)) -> bool {
    a.0 < b.0 || (a.0 == b.0 && a.1 < b.1)
}

/// Target `j` of work item `i` lags behind the item's latest operation.
pub open spec fn spec_lags(work: Seq<SyncWork>, i: int, j: int) -> bool {
    0 <= i < work.len() && 0 <= j < work[i].targets@.len() && work[i].targets@[j].acked_seq < work[i].latest_seq
}

/// `plan` lists exactly the lagging (work item, target) pairs, each once,
/// in order.
pub open spec fn spec_is_round_plan(work: Seq<SyncWork>, plan: Seq<(usize, usize)>) -> bool {
    &&& forall|k: int| 0 <= k < plan.len() ==> spec_lags(work, (#[trigger] plan[k]).0 as int, plan[k].1 as int)
    &&& forall|i: int, j: int| spec_lags(work, i, j) ==> plan.contains((i as usize, j as usize))
    &&& forall|a: int, b: int| 0 <= a < b < plan.len() ==> spec_pair_before(plan[a], plan[b])
}

/// The replays of a retry round: every backup of every work item that lags
/// behind the item's latest operation (the others get no replay), in order.
pub fn round_replays(work: &Vec<SyncWork>) -> (r: Vec<(usize, usize)>)
    ensures
        spec_is_round_plan(work@, r@),
{
    let mut r: Vec<(usize, usize)> = Vec::new();
    let mut i: usize = 0;
    while i < work.len()
        invariant
            i <= work.len(),
            forall|k: int| 0 <= k < r@.len() ==> spec_lags(work@, (#[trigger] r@[k]).0 as int, r@[k].1 as int) && r@[k].0 < i,
            forall|a: int, j: int| 0 <= a < i && spec_lags(work@, a, j) ==> r@.contains((a as usize, j as usize)),
            forall|a: int, b: int| 0 <= a < b < r@.len() ==> spec_pair_before(r@[a], r@[b]),
        decreases work.len() - i,
    {
        let w = &work[i];
        let mut j: usize = 0;
        while j < w.targets.len()
            invariant
                i < work.len(),
                *w == work@[i as int],
                j <= w.targets.len(),
                forall|k: int| 0 <= k < r@.len() ==> spec_lags(work@, (#[trigger] r@[k]).0 as int, r@[k].1 as int)
                    && (r@[k].0 < i || (r@[k].0 == i && r@[k].1 < j)),
                forall|a: int, t: int| (0 <= a < i || (a == i && 0 <= t < j)) && spec_lags(work@, a, t)
                    ==> r@.contains((a as usize, t as usize)),
                forall|a: int, b: int| 0 <= a < b < r@.len() ==> spec_pair_before(r@[a], r@[b]),
            decreases w.targets.len() - j,
        {
            if w.targets[j].acked_seq < w.latest_seq {
                let ghost before = r@;
                r.push((i, j));
                proof {
                    assert forall|a: int, t: int| (0 <= a < i || (a == i && 0 <= t < j + 1)) && spec_lags(work@, a, t)
                        implies r@.contains((a as usize, t as usize)) by {
                        if a == i && t == j {
                            assert(r@[r@.len() - 1] == (a as usize, t as usize));
                        } else {
                            let k = choose|k: int| 0 <= k < before.len() && before[k] == (a as usize, t as usize);
                            assert(r@[k] == before[k]);
                        }
                    }
                }
            }
            j = j + 1;
        }
        i = i + 1;
    }
    r
}

/// A retry round replays, for each file of a directory, exactly the
/// backups that should hold the file (its redirect targets, or else the
/// write-enabled backups that do not exclude it) and have not acknowledged
/// its latest operation (an absent acknowledgement counts as 0); backups
/// that should not hold it get no replay. Each replay makes one to three
/// attempts (`after_attempt`).
pub proof fn lemma_retry_round(
    config: MultiWriteConfig,
    dir: Seq<char>,
    path: Seq<char>,
    is_dir: bool,
    log: SyncLogMeta,
    redirect: RedirectMeta,
    work: Seq<SyncWork>,
    plan: Seq<(usize, usize)>,
    i: usize,
    backup: Seq<char>,
)
    requires
        spec_dir_work(config, dir, path, is_dir, log, redirect, work),
        spec_is_round_plan(work, plan),
        log.entries.pairs().len() <= usize::MAX,
        i < work.len(),
        work[i as int].targets@.len() <= usize::MAX,
    ensures
        ({
            let ps = log.entries.pairs();
            let k = indices_upto(ps.len(), |k: int| spec_in_scope(dir, ps[k].0, path, is_dir))[i as int] as int;
            let name = ps[k].0;
            let e = ps[k].1;
            let names = config.spec_effective_targets(spec_join_path(dir, name), redirect_of(redirect, name));
            &&& 0 <= k < ps.len()
            &&& work[i as int].path@ == spec_join_path(dir, name)
            &&& (exists|j: usize| plan.contains((i, j)) && #[trigger] work[i as int].targets@[j as int].name@ == backup)
                <==> (exists|j: int| 0 <= j < names.len() && #[trigger] names[j]@ == backup)
                    && spec_acked_seq(e, backup) < e.latest_seq
        }),
{
    let ps = log.entries.pairs();
    let pred = |k: int| spec_in_scope(dir, ps[k].0, path, is_dir);
    let idx = indices_upto(ps.len(), pred);
    crate::config::lemma_indices_upto(ps.len(), pred);
    assert(idx.contains(idx[i as int]));
    let k = idx[i as int] as int;
    let name = ps[k].0;
    let e = ps[k].1;
    let w = work[i as int];
    assert(spec_describes(w, config, dir, name, e, redirect));
    let names = config.spec_effective_targets(w.path@, redirect_of(redirect, name));
    if exists|j: usize| plan.contains((i, j)) && #[trigger] w.targets@[j as int].name@ == backup {
        let j = choose|j: usize| plan.contains((i, j)) && #[trigger] w.targets@[j as int].name@ == backup;
        let p = choose|p: int| 0 <= p < plan.len() && plan[p] == (i, j);
        assert(spec_lags(work, plan[p].0 as int, plan[p].1 as int));
        assert(names[j as int]@ == backup);
    }
    if (exists|j: int| 0 <= j < names.len() && #[trigger] names[j]@ == backup) && spec_acked_seq(e, backup) < e.latest_seq {
        let j = choose|j: int| 0 <= j < names.len() && #[trigger] names[j]@ == backup;
        assert(w.targets@[j].name@ == backup);
        assert(spec_lags(work, i as int, j));
        assert(plan.contains((i, j as usize)));
        assert(w.targets@[(j as usize) as int].name@ == backup);
    }
}

/// The backups that should hold file `name` of `dir`.
pub open spec fn spec_file_targets(config: MultiWriteConfig, dir: Seq<char>, redirect: RedirectMeta, name: Seq<char>) -> Seq<String> {
    config.spec_effective_targets(spec_join_path(dir, name), redirect_of(redirect, name))
}

/// Retrying reaches a fixed point: when, since a directory's sync log was
/// `log0`, every backup that should hold a file and lagged behind its latest
/// operation has acknowledged it (as a successful replay does) and nothing
/// else changed the log, now `log1`, then a new round over `log1` finds
/// every backup of every file in sync: it replays nothing, a manual retry
/// records every target as skipped, and the status counts no lag.
pub proof fn lemma_retry_fixed_point(
    config: MultiWriteConfig,
    dir: Seq<char>,
    path: Seq<char>,
    is_dir: bool,
    log0: SyncLogMeta,
    log1: SyncLogMeta,
    redirect: RedirectMeta,
    acked: spec_fn(Seq<char>) -> Seq<Seq<char>>,
    work: Seq<SyncWork>,
    plan: Seq<(usize, usize)>,
)
    requires
        log1.entries.inv(),
        log1.entries.pairs().len() <= usize::MAX,
        log1.entries.view().dom() == log0.entries.view().dom(),
        forall|n: Seq<char>| #[trigger] log0.entries.view().contains_key(n) ==> spec_acked_by(
            log0.entries.view()[n],
            log1.entries.view()[n],
            acked(n),
        ),
        forall|n: Seq<char>, t: int|
            log0.entries.view().contains_key(n) && 0 <= t < spec_file_targets(config, dir, redirect, n).len()
                && spec_acked_seq(log0.entries.view()[n], (#[trigger] spec_file_targets(config, dir, redirect, n)[t])@)
                < log0.entries.view()[n].latest_seq ==> acked(n).contains(spec_file_targets(config, dir, redirect, n)[t]@),
        spec_dir_work(config, dir, path, is_dir, log1, redirect, work),
        spec_is_round_plan(work, plan),
    ensures
        plan.len() == 0,
        forall|i: int, j: int| 0 <= i < work.len() && 0 <= j < work[i].targets@.len()
            ==> (#[trigger] work[i].targets@[j]).acked_seq >= work[i].latest_seq,
        spec_pending(work) == 0,
{
    let ps = log1.entries.pairs();
    let pred = |k: int| spec_in_scope(dir, ps[k].0, path, is_dir);
    let idx = indices_upto(ps.len(), pred);
    crate::config::lemma_indices_upto(ps.len(), pred);
    log1.entries.lemma_pairs();
    assert forall|i: int, j: int| 0 <= i < work.len() && 0 <= j < work[i].targets@.len()
        implies (#[trigger] work[i].targets@[j]).acked_seq >= work[i].latest_seq by {
        assert(idx.contains(idx[i]));
        let k = idx[i] as int;
        let name = ps[k].0;
        let e1 = ps[k].1;
        assert(spec_describes(work[i], config, dir, name, e1, redirect));
        assert(log1.entries.view().contains_key(name));
        assert(log1.entries.view()[name] == e1);
        assert(log0.entries.view().dom().contains(name));
        let e0 = log0.entries.view()[name];
        let names = spec_file_targets(config, dir, redirect, name);
        let b = names[j]@;
        assert(work[i].targets@[j].acked_seq == spec_acked_seq(e1, b));
        assert(spec_acked_by(e0, e1, acked(name)));
        assert(spec_acked_seq(e1, b) == if acked(name).contains(b) { e0.latest_seq } else { spec_acked_seq(e0, b) });
    }
    if plan.len() > 0 {
        assert(spec_lags(work, plan[0].0 as int, plan[0].1 as int));
    }
    lemma_no_pending_iff_all_synced(work);
}

/// What to do after a replay attempt.
#[derive(Debug)]
pub enum AttemptStep {
    /// The attempt failed and attempts remain: wait, then try again.
    Again,
    /// No further attempt: the outcome of the replay.
    Finished(ReplayResult),
}

/// Decide after attempt number `attempts_made` (counting from 1) of a
/// replay, whose error text is `error` (`None` when it succeeded): stop at
/// the first success, try again while fewer than `MAX_RETRY_PER_ROUND`
/// attempts were made, and otherwise report the failure with the last error.
pub fn after_attempt(attempts_made: usize, error: Option<String>) -> (r: AttemptStep)
    requires
        1 <= attempts_made <= MAX_RETRY_PER_ROUND,
    ensures
        match error {
            None => r matches AttemptStep::Finished(ReplayResult::Succeeded),
            Some(e) => if attempts_made < MAX_RETRY_PER_ROUND {
                r is Again
            } else {
                r matches AttemptStep::Finished(ReplayResult::Failed(Some(m))) && m == e
            },
        },
{
    match error {
        None => AttemptStep::Finished(ReplayResult::Succeeded),
        Some(e) => if attempts_made < MAX_RETRY_PER_ROUND {
            AttemptStep::Again
        } else {
            AttemptStep::Finished(ReplayResult::Failed(Some(e)))
        },
    }
}

/// Where a replay reads the content to copy, in order: the redirect targets
/// (those that name a backend) of a redirected file, otherwise the primary.
pub fn replay_content_sources(config: &MultiWriteConfig, redirect: Option<&RedirectEntry>) -> (r: Vec<usize>)
    ensures
        r@ == match redirect {
            Some(e) => crate::config::spec_named_backends(config.spec_backends(), e.targets@),
            None => seq![0usize],
        },
{
    match redirect {
        Some(e) => config.backends_named(&e.targets),
        None => {
            let mut r: Vec<usize> = Vec::new();
            r.push(0);
            assert(r@ =~= seq![0usize]);
            r
        },
    }
}

/// A copy of a byte vector.
pub fn copy_bytes(v: &Vec<u8>) -> (r: Vec<u8>)
    ensures
        r@ == v@,
{
    let mut r: Vec<u8> = Vec::new();
    let mut i: usize = 0;
    while i < v.len()
        invariant
            i <= v.len(),
            r@ == v@.take(i as int),
        decreases v.len() - i,
    {
        r.push(v[i]);
        i = i + 1;
        assert(r@ =~= v@.take(i as int));
    }
    assert(v@.take(v.len() as int) =~= v@);
    r
}

/// The content to copy on replay: the first source that could be read, or
/// nothing when none could.
pub fn first_read_content(reads: Vec<Option<Vec<u8>>>) -> (r: Vec<u8>)
    ensures
        (exists|k: int| 0 <= k < reads@.len() && reads@[k] is Some) ==> exists|k: int|
            0 <= k < reads@.len() && (#[trigger] reads@[k] matches Some(v) && v@ == r@) && forall|j: int| 0 <= j < k ==> reads@[j] is None,
        (forall|k: int| 0 <= k < reads@.len() ==> reads@[k] is None) ==> r@.len() == 0,
{
    let mut i: usize = 0;
    while i < reads.len()
        invariant
            i <= reads.len(),
            forall|j: int| 0 <= j < i ==> reads@[j] is None,
        decreases reads.len() - i,
    {
        match &reads[i] {
            Some(d) => {
                let c = copy_bytes(d);
                return c;
            },
            None => {},
        }
        i = i + 1;
    }
    Vec::new()
}

} // verus!
