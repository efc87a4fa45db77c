//! Directory views that hide internal metadata files and show redirected
//! files: listings, trees and search results.

use vstd::prelude::*;
use vstd::string::*;
use crate::context::trim_leading;
use crate::path::{
    chars_of, file_name, is_internal_name, is_root, join_path, parent_dir, spec_file_name,
    spec_is_internal_name, spec_join_path, spec_parent_dir, str_eq,
};

verus! {

/// What a listing shows of one entry.
#[derive(Debug)]
pub struct FileInfo {
    pub name: String,
    pub size: u64,
    pub mode: u32,
    pub is_dir: bool,
}

impl FileInfo {
    /// A regular file.
    pub fn new_file(name: String, size: u64, mode: u32) -> (r: FileInfo)
        ensures
            r.name == name,
            r.size == size,
            r.mode == mode,
            !r.is_dir,
    {
        FileInfo { name, size, mode, is_dir: false }
    }
}

/// The entries whose name is not an internal metadata name, in order.
pub open spec fn spec_visible(entries: Seq<FileInfo>) -> Seq<FileInfo>
    decreases entries.len(),
{
    if entries.len() == 0 {
        Seq::empty()
    } else {
        let rest = spec_visible(entries.drop_last());
        if spec_is_internal_name(entries.last().name@) {
            rest
        } else {
            rest.push(entries.last())
        }
    }
}

/// A listing hides exactly the internal metadata files: every shown entry
/// comes from the input and has no internal name, and every input entry
/// without an internal name is shown.
pub proof fn lemma_visible_entries(entries: Seq<FileInfo>)
    ensures
        forall|k: int| 0 <= k < spec_visible(entries).len() ==> {
            &&& !spec_is_internal_name((#[trigger] spec_visible(entries)[k]).name@)
            &&& entries.contains(spec_visible(entries)[k])
        },
        forall|k: int| 0 <= k < entries.len() && !spec_is_internal_name((#[trigger] entries[k]).name@)
            ==> spec_visible(entries).contains(entries[k]),
    decreases entries.len(),
{
    if entries.len() > 0 {
        let init = entries.drop_last();
        let rest = spec_visible(init);
        lemma_visible_entries(init);
        let v = spec_visible(entries);
        assert forall|k: int| 0 <= k < v.len() implies {
            &&& !spec_is_internal_name((#[trigger] v[k]).name@)
            &&& entries.contains(v[k])
        } by {
            if k < rest.len() {
                assert(v[k] == rest[k]);
                let j = choose|j: int| 0 <= j < init.len() && init[j] == rest[k];
                assert(entries[j] == init[j]);
            } else {
                assert(v[k] == entries.last());
                assert(entries[entries.len() - 1] == entries.last());
            }
        }
        assert forall|k: int| 0 <= k < entries.len() && !spec_is_internal_name((#[trigger] entries[k]).name@)
            implies v.contains(entries[k]) by {
            if k < entries.len() - 1 {
                assert(init[k] == entries[k]);
                assert(rest.contains(init[k]));
                let j = choose|j: int| 0 <= j < rest.len() && rest[j] == init[k];
                assert(v[j] == rest[j]);
            } else {
                assert(v[v.len() - 1] == entries[k]);
            }
        }
    }
}

/// Drop the internal metadata files from a listing.
pub fn filter_internal(entries: Vec<FileInfo>) -> (r: Vec<FileInfo>)
    ensures
        r@ == spec_visible(entries@),
{
    let ghost all = entries@;
    let mut rest = entries;
    let mut r: Vec<FileInfo> = Vec::new();
    let n = rest.len();
    let mut i: usize = 0;
    while i < n
        invariant
            n == all.len(),
            i <= n,
            rest@ == all.subrange(i as int, n as int),
            r@ == spec_visible(all.take(i as int)),
        decreases n - i,
    {
        proof {
            assert(all.take(i + 1).drop_last() =~= all.take(i as int));
            assert(rest@[0] == all[i as int]);
        }
        let e = rest.remove(0);
        if !is_internal_name(e.name.as_str()) {
            r.push(e);
        }
        proof {
            assert(rest@ =~= all.subrange(i + 1, n as int));
        }
        i = i + 1;
    }
    assert(all.take(n as int) =~= all);
    r
}

/// Whether some entry has the given name.
fn has_name(entries: &Vec<FileInfo>, name: &str) -> (r: bool)
    ensures
        r == exists|k: int| 0 <= k < entries@.len() && (#[trigger] entries@[k]).name@ == name@,
{
    let mut k: usize = 0;
    while k < entries.len()
        invariant
            k <= entries.len(),
            forall|j: int| 0 <= j < k ==> (#[trigger] entries@[j]).name@ != name@,
        decreases entries.len() - k,
    {
        if str_eq(entries[k].name.as_str(), name) {
            return true;
        }
        k = k + 1;
    }
    false
}

/// `entries` followed by each of `extra` whose name is not yet listed.
pub open spec fn spec_merged(entries: Seq<FileInfo>, extra: Seq<FileInfo>) -> Seq<FileInfo>
    decreases extra.len(),
{
    if extra.len() == 0 {
        entries
    } else {
        let before = spec_merged(entries, extra.drop_last());
        if exists|k: int| 0 <= k < before.len() && (#[trigger] before[k]).name@ == extra.last().name@ {
            before
        } else {
            before.push(extra.last())
        }
    }
}

/// Merging redirected files into a listing keeps the listing as it is (it
/// is a prefix of the result) and only appends: each appended entry is one
/// of `extra` whose name was not listed yet, and every name of `extra` is
/// listed afterwards.
pub proof fn lemma_merge_keeps_listing(entries: Seq<FileInfo>, extra: Seq<FileInfo>)
    ensures
        spec_merged(entries, extra).len() >= entries.len(),
        forall|k: int| 0 <= k < entries.len() ==> #[trigger] spec_merged(entries, extra)[k] == entries[k],
        forall|k: int| entries.len() <= k < spec_merged(entries, extra).len() ==> {
            &&& exists|i: int| 0 <= i < extra.len() && extra[i] == #[trigger] spec_merged(entries, extra)[k]
            &&& forall|m: int| 0 <= m < k ==> spec_merged(entries, extra)[m].name@ != spec_merged(entries, extra)[k].name@
        },
        forall|i: int| 0 <= i < extra.len() ==> exists|k: int|
            0 <= k < spec_merged(entries, extra).len() && #[trigger] spec_merged(entries, extra)[k].name@
                == (#[trigger] extra[i]).name@,
    decreases extra.len(),
{
    if extra.len() > 0 {
        let init = extra.drop_last();
        let last = extra.last();
        let before = spec_merged(entries, init);
        let out = spec_merged(entries, extra);
        lemma_merge_keeps_listing(entries, init);
        assert forall|i: int| 0 <= i < init.len() implies exists|k: int|
            0 <= k < before.len() && #[trigger] before[k].name@ == (#[trigger] extra[i]).name@ by {
            assert(init[i] == extra[i]);
        }
        if exists|k: int| 0 <= k < before.len() && (#[trigger] before[k]).name@ == last.name@ {
            assert(out == before);
            assert forall|k: int| entries.len() <= k < out.len() implies
                exists|i: int| 0 <= i < extra.len() && extra[i] == #[trigger] out[k] by {
                let i = choose|i: int| 0 <= i < init.len() && init[i] == before[k];
                assert(extra[i] == init[i]);
            }
            assert forall|i: int| 0 <= i < extra.len() implies exists|k: int|
                0 <= k < out.len() && #[trigger] out[k].name@ == (#[trigger] extra[i]).name@ by {
                if i == extra.len() - 1 {
                    let k = choose|k: int| 0 <= k < before.len() && (#[trigger] before[k]).name@ == last.name@;
                    assert(out[k].name@ == extra[i].name@);
                } else {
                    assert(init[i] == extra[i]);
                }
            }
        } else {
            assert(out == before.push(last));
            assert forall|k: int| 0 <= k < entries.len() implies #[trigger] out[k] == entries[k] by {
                assert(out[k] == before[k]);
            }
            assert forall|k: int| entries.len() <= k < out.len() implies {
                &&& exists|i: int| 0 <= i < extra.len() && extra[i] == #[trigger] out[k]
                &&& forall|m: int| 0 <= m < k ==> out[m].name@ != out[k].name@
            } by {
                if k < before.len() {
                    assert(out[k] == before[k]);
                    let i = choose|i: int| 0 <= i < init.len() && init[i] == before[k];
                    assert(extra[i] == init[i]);
                    assert forall|m: int| 0 <= m < k implies out[m].name@ != out[k].name@ by {
                        assert(out[m] == before[m]);
                    }
                } else {
                    assert(extra[extra.len() - 1] == out[k]);
                    assert forall|m: int| 0 <= m < k implies out[m].name@ != out[k].name@ by {
                        assert(out[m] == before[m]);
                    }
                }
            }
            assert forall|i: int| 0 <= i < extra.len() implies exists|k: int|
                0 <= k < out.len() && #[trigger] out[k].name@ == (#[trigger] extra[i]).name@ by {
                if i == extra.len() - 1 {
                    assert(out[before.len() as int] == last);
                } else {
                    assert(init[i] == extra[i]);
                    let k = choose|k: int| 0 <= k < before.len() && #[trigger] before[k].name@ == init[i].name@;
                    assert(out[k] == before[k]);
                }
            }
        }
    }
}

/// Show redirected files in a listing: each entry of `extra` (the
/// redirected files' information) is appended unless its name is listed.
pub fn merge_redirect_entries(entries: &mut Vec<FileInfo>, extra: Vec<FileInfo>)
    ensures
        final(entries)@ == spec_merged(old(entries)@, extra@),
        final(entries)@.len() >= old(entries)@.len(),
        forall|k: int| 0 <= k < old(entries)@.len() ==> #[trigger] final(entries)@[k] == old(entries)@[k],
{
    let ghost start = entries@;
    let ghost all = extra@;
    let mut rest = extra;
    let n = rest.len();
    let mut i: usize = 0;
    while i < n
        invariant
            n == all.len(),
            i <= n,
            rest@ == all.subrange(i as int, n as int),
            entries@ == spec_merged(start, all.take(i as int)),
        decreases n - i,
    {
        proof {
            assert(all.take(i + 1).drop_last() =~= all.take(i as int));
            assert(rest@[0] == all[i as int]);
        }
        let e = rest.remove(0);
        if !has_name(entries, e.name.as_str()) {
            entries.push(e);
        }
        proof {
            assert(rest@ =~= all.subrange(i + 1, n as int));
        }
        i = i + 1;
    }
    assert(all.take(n as int) =~= all);
    proof {
        lemma_merge_keeps_listing(start, all);
    }
}

/// What a listing shows of a redirected file: the first successful stat of
/// its targets (`stats`, in target order) under the file's own name, or an
/// empty regular file with mode 0o644 when none succeeded.
pub fn redirect_file_info(name: &str, stats: Vec<Option<FileInfo>>) -> (r: FileInfo)
    ensures
        r.name@ == name@,
        (exists|k: int| 0 <= k < stats@.len() && stats@[k] is Some) ==> exists|k: int|
            0 <= k < stats@.len() && (#[trigger] stats@[k] matches Some(s) && r.size == s.size && r.mode == s.mode
                && r.is_dir == s.is_dir) && forall|j: int| 0 <= j < k ==> stats@[j] is None,
        (forall|k: int| 0 <= k < stats@.len() ==> stats@[k] is None) ==> r.size == 0 && r.mode == 0o644 && !r.is_dir,
{
    let mut i: usize = 0;
    while i < stats.len()
        invariant
            i <= stats.len(),
            forall|j: int| 0 <= j < i ==> stats@[j] is None,
        decreases stats.len() - i,
    {
        match &stats[i] {
            Some(s) => {
                return FileInfo { name: String::from_str(name), size: s.size, mode: s.mode, is_dir: s.is_dir };
            },
            None => {},
        }
        i = i + 1;
    }
    FileInfo::new_file(String::from_str(name), 0, 0o644)
}

/// One entry of a directory tree.
#[derive(Debug)]
pub struct TreeEntry {
    pub path: String,
    pub rel_path: String,
    pub info: FileInfo,
    /// Shown because of redirect metadata.
    pub redirect: bool,
}

/// The tree entries whose last component is not an internal name.
pub open spec fn spec_visible_tree(entries: Seq<TreeEntry>) -> Seq<TreeEntry>
    decreases entries.len(),
{
    if entries.len() == 0 {
        Seq::empty()
    } else {
        let rest = spec_visible_tree(entries.drop_last());
        if spec_is_internal_name(spec_file_name(entries.last().path@)) {
            rest
        } else {
            rest.push(entries.last())
        }
    }
}

/// Drop the internal metadata files from a tree.
pub fn filter_internal_tree(entries: Vec<TreeEntry>) -> (r: Vec<TreeEntry>)
    ensures
        r@ == spec_visible_tree(entries@),
{
    let ghost all = entries@;
    let mut rest = entries;
    let mut r: Vec<TreeEntry> = Vec::new();
    let n = rest.len();
    let mut i: usize = 0;
    while i < n
        invariant
            n == all.len(),
            i <= n,
            rest@ == all.subrange(i as int, n as int),
            r@ == spec_visible_tree(all.take(i as int)),
        decreases n - i,
    {
        proof {
            assert(all.take(i + 1).drop_last() =~= all.take(i as int));
            assert(rest@[0] == all[i as int]);
        }
        let e = rest.remove(0);
        if !is_internal_name(file_name(e.path.as_str())) {
            r.push(e);
        }
        proof {
            assert(rest@ =~= all.subrange(i + 1, n as int));
        }
        i = i + 1;
    }
    assert(all.take(n as int) =~= all);
    r
}

/// `s` without its prefix `p` when it has one, otherwise `s`.
pub open spec fn spec_strip_prefix(s: Seq<char>, p: Seq<char>) -> Seq<char> {
    if p.len() <= s.len() && s.take(p.len() as int) == p {
        s.skip(p.len() as int)
    } else {
        s
    }
}

/// Path of a tree entry relative to the tree's base, without leading `/`.
pub open spec fn spec_rel_path(base: Seq<char>, path: Seq<char>) -> Seq<char> {
    if base == seq!['/'] {
        trim_leading(path, '/')
    } else {
        trim_leading(spec_strip_prefix(path, base), '/')
    }
}

proof fn lemma_trim_leading_skip(s: Seq<char>, start: int)
    requires
        0 <= start <= s.len(),
        forall|j: int| 0 <= j < start ==> s[j] == '/',
    ensures
        trim_leading(s, '/') == trim_leading(s.skip(start), '/'),
    decreases start,
{
    if start > 0 {
        assert(s.drop_first().skip(start - 1) =~= s.skip(start));
        lemma_trim_leading_skip(s.drop_first(), start - 1);
    } else {
        assert(s.skip(0) =~= s);
    }
}

/// The text of `path` (whose characters are `v`) from `from` on, with
/// leading `/` removed.
fn trimmed_from(path: &str, v: &Vec<char>, from: usize) -> (r: String)
    requires
        v@ == path@,
        from <= v.len(),
    ensures
        r@ == trim_leading(path@.skip(from as int), '/'),
{
    let mut i = from;
    while i < v.len() && v[i] == '/'
        invariant
            from <= i <= v.len(),
            forall|j: int| from <= j < i ==> v@[j] == '/',
        decreases v.len() - i,
    {
        i = i + 1;
    }
    proof {
        let s = v@.skip(from as int);
        lemma_trim_leading_skip(s, i - from);
        assert(s.skip(i - from) =~= v@.subrange(i as int, v.len() as int));
        if i < v.len() {
            assert(s.skip(i - from)[0] != '/');
        }
    }
    String::from_str(path.substring_char(i, v.len()))
}

/// Path of a tree entry relative to the base of the tree.
pub fn rel_path(base: &str, path: &str) -> (r: String)
    ensures
        r@ == spec_rel_path(base@, path@),
{
    let v = chars_of(path);
    if is_root(base) {
        assert(v@.skip(0) =~= v@);
        return trimmed_from(path, &v, 0);
    }
    let b = chars_of(base);
    if b.len() <= v.len() {
        let mut k: usize = 0;
        while k < b.len() && b[k] == v[k]
            invariant
                b@ == base@,
                v@ == path@,
                b.len() <= v.len(),
                k <= b.len(),
                forall|j: int| 0 <= j < k ==> b@[j] == v@[j],
            decreases b.len() - k,
        {
            k = k + 1;
        }
        if k == b.len() {
            assert(path@.take(base@.len() as int) =~= base@);
            return trimmed_from(path, &v, b.len());
        }
        assert(path@.take(base@.len() as int)[k as int] != base@[k as int]);
    }
    assert(v@.skip(0) =~= v@);
    trimmed_from(path, &v, 0)
}

/// Whether some tree entry has the given path.
fn has_path(entries: &Vec<TreeEntry>, path: &str) -> (r: bool)
    ensures
        r == exists|k: int| 0 <= k < entries@.len() && (#[trigger] entries@[k]).path@ == path@,
{
    let mut k: usize = 0;
    while k < entries.len()
        invariant
            k <= entries.len(),
            forall|j: int| 0 <= j < k ==> (#[trigger] entries@[j]).path@ != path@,
        decreases entries.len() - k,
    {
        if str_eq(entries[k].path.as_str(), path) {
            return true;
        }
        k = k + 1;
    }
    false
}

/// The entry a tree shows for redirected file `name` of directory `dir`.
pub open spec fn spec_redirect_tree_entry(e: TreeEntry, base: Seq<char>, dir: Seq<char>, name: Seq<char>) -> bool {
    &&& e.path@ == spec_join_path(dir, name)
    &&& e.rel_path@ == spec_rel_path(base, spec_join_path(dir, name))
    &&& e.info.name@ == name
    &&& e.info.size == 0
    &&& e.info.mode == 0o644
    &&& !e.info.is_dir
    &&& e.redirect
}

/// One step of adding redirected files: `out` is `mid` with the entry of
/// the last name added unless a tree entry already has its path.
pub open spec fn spec_tree_step(mid: Seq<TreeEntry>, base: Seq<char>, dir: Seq<char>, name: Seq<char>, out: Seq<TreeEntry>) -> bool {
    let vp = spec_join_path(dir, name);
    if exists|k: int| 0 <= k < mid.len() && (#[trigger] mid[k]).path@ == vp {
        out == mid
    } else {
        out.len() == mid.len() + 1 && out.drop_last() == mid && spec_redirect_tree_entry(out.last(), base, dir, name)
    }
}

/// Tree after adding the redirected files `names` of `dir`.
pub open spec fn spec_tree_merged(entries: Seq<TreeEntry>, base: Seq<char>, dir: Seq<char>, names: Seq<Seq<char>>, out: Seq<TreeEntry>) -> bool
    decreases names.len(),
{
    if names.len() == 0 {
        out == entries
    } else {
        exists|mid: Seq<TreeEntry>|
            spec_tree_merged(entries, base, dir, names.drop_last(), mid) && #[trigger] spec_tree_step(
                mid,
                base,
                dir,
                names.last(),
                out,
            )
    }
}

/// Adding redirected files to a tree keeps the tree as it is (a prefix of
/// the result) and shows every redirected file at its full path `dir/name`:
/// an entry at that path is kept, and otherwise a redirect entry for the
/// file is appended (an entry with the same name at another path does not
/// stand in for it). Each appended entry is such a redirect entry, at a
/// path the tree did not hold yet.
pub proof fn lemma_tree_merge_shows_redirects(
    entries: Seq<TreeEntry>,
    base: Seq<char>,
    dir: Seq<char>,
    names: Seq<Seq<char>>,
    out: Seq<TreeEntry>,
)
    requires
        spec_tree_merged(entries, base, dir, names, out),
    ensures
        out.len() >= entries.len(),
        forall|k: int| 0 <= k < entries.len() ==> #[trigger] out[k] == entries[k],
        forall|i: int| 0 <= i < names.len() ==> exists|k: int|
            0 <= k < out.len() && (#[trigger] out[k]).path@ == spec_join_path(dir, #[trigger] names[i]),
        forall|k: int| entries.len() <= k < out.len() ==> {
            &&& exists|i: int| 0 <= i < names.len() && {
                &&& (#[trigger] out[k]).path@ == spec_join_path(dir, names[i])
                &&& out[k].info.name@ == names[i]
                &&& out[k].redirect
            }
            &&& forall|m: int| 0 <= m < k ==> out[m].path@ != out[k].path@
        },
    decreases names.len(),
{
    if names.len() > 0 {
        let init = names.drop_last();
        let last = names.last();
        let mid = choose|mid: Seq<TreeEntry>|
            spec_tree_merged(entries, base, dir, init, mid) && #[trigger] spec_tree_step(mid, base, dir, last, out);
        lemma_tree_merge_shows_redirects(entries, base, dir, init, mid);
        let vp = spec_join_path(dir, last);
        if exists|k: int| 0 <= k < mid.len() && (#[trigger] mid[k]).path@ == vp {
            assert(out == mid);
            assert forall|i: int| 0 <= i < names.len() implies exists|k: int|
                0 <= k < out.len() && (#[trigger] out[k]).path@ == spec_join_path(dir, #[trigger] names[i]) by {
                if i < names.len() - 1 {
                    assert(init[i] == names[i]);
                }
            }
            assert forall|k: int| entries.len() <= k < out.len() implies exists|i: int| 0 <= i < names.len() && {
                &&& (#[trigger] out[k]).path@ == spec_join_path(dir, names[i])
                &&& out[k].info.name@ == names[i]
                &&& out[k].redirect
            } by {
                let i = choose|i: int| 0 <= i < init.len() && {
                    &&& (#[trigger] mid[k]).path@ == spec_join_path(dir, init[i])
                    &&& mid[k].info.name@ == init[i]
                    &&& mid[k].redirect
                };
                assert(names[i] == init[i]);
            }
        } else {
            assert(out.drop_last() == mid);
            assert forall|k: int| 0 <= k < mid.len() implies #[trigger] out[k] == mid[k] by {
                assert(out.drop_last()[k] == out[k]);
            }
            assert forall|i: int| 0 <= i < names.len() implies exists|k: int|
                0 <= k < out.len() && (#[trigger] out[k]).path@ == spec_join_path(dir, #[trigger] names[i]) by {
                if i < names.len() - 1 {
                    assert(init[i] == names[i]);
                    let k = choose|k: int| 0 <= k < mid.len() && (#[trigger] mid[k]).path@ == spec_join_path(dir, init[i]);
                    assert(out[k] == mid[k]);
                } else {
                    assert(out[out.len() - 1].path@ == vp);
                }
            }
            assert forall|k: int| entries.len() <= k < out.len() implies {
                &&& exists|i: int| 0 <= i < names.len() && {
                    &&& (#[trigger] out[k]).path@ == spec_join_path(dir, names[i])
                    &&& out[k].info.name@ == names[i]
                    &&& out[k].redirect
                }
                &&& forall|m: int| 0 <= m < k ==> out[m].path@ != out[k].path@
            } by {
                if k < mid.len() {
                    assert(out[k] == mid[k]);
                    let i = choose|i: int| 0 <= i < init.len() && {
                        &&& (#[trigger] mid[k]).path@ == spec_join_path(dir, init[i])
                        &&& mid[k].info.name@ == init[i]
                        &&& mid[k].redirect
                    };
                    assert(names[i] == init[i]);
                    assert forall|m: int| 0 <= m < k implies out[m].path@ != out[k].path@ by {
                        assert(out[m] == mid[m]);
                    }
                } else {
                    assert(names[names.len() - 1] == last);
                    assert forall|m: int| 0 <= m < k implies out[m].path@ != out[k].path@ by {
                        assert(out[m] == mid[m]);
                    }
                }
            }
        }
    }
}

/// Show the redirected files `names` of directory `dir` in a tree based at
/// `base`: each one not yet in the tree is added as a redirect entry.
pub fn merge_tree_redirects(entries: &mut Vec<TreeEntry>, base: &str, dir: &str, names: &Vec<String>)
    ensures
        spec_tree_merged(old(entries)@, base@, dir@, names@.map_values(|n: String| n@), final(entries)@),
        final(entries)@.len() >= old(entries)@.len(),
        forall|k: int| 0 <= k < old(entries)@.len() ==> #[trigger] final(entries)@[k] == old(entries)@[k],
        forall|i: int| 0 <= i < names@.len() ==> exists|k: int|
            0 <= k < final(entries)@.len() && (#[trigger] final(entries)@[k]).path@ == spec_join_path(
                dir@,
                (#[trigger] names@[i])@,
            ),
{
    let ghost start = entries@;
    let ghost nv = names@.map_values(|n: String| n@);
    let mut i: usize = 0;
    assert(nv.take(0) =~= Seq::<Seq<char>>::empty());
    while i < names.len()
        invariant
            i <= names.len(),
            nv == names@.map_values(|n: String| n@),
            spec_tree_merged(start, base@, dir@, nv.take(i as int), entries@),
        decreases names.len() - i,
    {
        let ghost mid = entries@;
        proof {
            assert(nv.take(i + 1).drop_last() =~= nv.take(i as int));
            assert(nv.take(i + 1).last() == names@[i as int]@);
        }
        let vp = join_path(dir, names[i].as_str());
        let ghost names_i = nv.take(i + 1);
        assert(vp@ == spec_join_path(dir@, names_i.last()));
        if !has_path(entries, vp.as_str()) {
            let rel = rel_path(base, vp.as_str());
            let info = FileInfo::new_file(names[i].clone(), 0, 0o644);
            entries.push(TreeEntry { path: vp, rel_path: rel, info, redirect: true });
            proof {
                assert(entries@.drop_last() =~= mid);
                assert(spec_redirect_tree_entry(entries@.last(), base@, dir@, names_i.last()));
            }
        }
        proof {
            let vps = spec_join_path(dir@, names_i.last());
            assert(spec_tree_merged(start, base@, dir@, names_i.drop_last(), mid));
            assert(spec_tree_step(mid, base@, dir@, names_i.last(), entries@));
            assert(spec_tree_merged(start, base@, dir@, names_i, entries@));
        }
        i = i + 1;
    }
    assert(nv.take(names.len() as int) =~= nv);
    proof {
        lemma_tree_merge_shows_redirects(start, base@, dir@, nv, entries@);
        assert forall|i: int| 0 <= i < names@.len() implies exists|k: int|
            0 <= k < entries@.len() && (#[trigger] entries@[k]).path@ == spec_join_path(dir@, (#[trigger] names@[i])@) by {
            assert(nv[i] == names@[i]@);
        }
    }
}

/// One search hit.
#[derive(Debug)]
pub struct GrepMatch {
    pub file: String,
    pub line: u64,
    pub content: String,
}

/// Search hits and their number.
#[derive(Debug)]
pub struct GrepResult {
    pub matches: Vec<GrepMatch>,
    pub count: usize,
}

/// The directory whose redirected files a search also looks at.
pub fn grep_search_dir(path: &str, is_dir: bool) -> (r: String)
    ensures
        r@ == if is_dir { path@ } else { spec_parent_dir(path@) },
{
    if is_dir {
        String::from_str(path)
    } else {
        parent_dir(path)
    }
}

/// Add the hits found in redirect targets, stopping once the result holds
/// `node_limit` hits.
pub fn merge_grep_matches(result: &mut GrepResult, extra: Vec<GrepMatch>, node_limit: Option<usize>)
    requires
        old(result).count + extra@.len() <= usize::MAX,
    ensures
        ({
            let added = final(result).count - old(result).count;
            &&& 0 <= added <= extra@.len()
            &&& final(result).matches@ == old(result).matches@ + extra@.take(added)
            &&& match node_limit {
                Some(limit) => added == extra@.len() || old(result).count + added >= limit,
                None => added == extra@.len(),
            }
            &&& match node_limit {
                Some(limit) => added == 0 || old(result).count + added <= limit,
                None => true,
            }
        }),
{
    let ghost all = extra@;
    let ghost start = result.matches@;
    let ghost c0 = result.count;
    let mut rest = extra;
    let n = rest.len();
    let mut i: usize = 0;
    while i < n
        invariant
            n == all.len(),
            i <= n,
            rest@ == all.subrange(i as int, n as int),
            result.count == c0 + i,
            c0 + n <= usize::MAX,
            result.matches@ == start + all.take(i as int),
            match node_limit {
                Some(limit) => i == 0 || c0 + i <= limit,
                None => true,
            },
        ensures
            i <= n,
            result.count == c0 + i,
            result.matches@ == start + all.take(i as int),
            match node_limit {
                Some(limit) => (i == 0 || c0 + i <= limit) && (i == n || c0 + i >= limit),
                None => i == n,
            },
        decreases n - i,
    {
        match node_limit {
            Some(limit) => {
                if result.count >= limit {
                    break;
                }
            },
            None => {},
        }
        proof {
            assert(rest@[0] == all[i as int]);
        }
        let m = rest.remove(0);
        result.matches.push(m);
        result.count = result.count + 1;
        proof {
            assert(rest@ =~= all.subrange(i + 1, n as int));
            assert(result.matches@ =~= start + all.take(i + 1));
        }
        i = i + 1;
    }
}

} // verus!
