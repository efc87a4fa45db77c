//! Planning of the write-class file-system operations: where a write goes,
//! which metadata a rename touches, and which backups receive the fanout.

use vstd::prelude::*;
use vstd::string::*;
use crate::config::{spec_named_backends, MultiWriteConfig, first_matching};
use crate::meta::RedirectEntry;
use crate::path::{file_name, parent_dir, spec_file_name, spec_parent_dir, str_eq};

verus! {

/// Where a write goes.
#[derive(Debug)]
pub enum WriteRoute {
    /// The file is redirected: it is written to these backups (positions,
    /// from the target names) instead of the primary.
    Redirect { targets: Vec<String>, backends: Vec<usize> },
    /// The file goes to the primary, then to these backups.
    Primary { backups: Vec<usize> },
}

/// Decide where a write of `size` bytes to `path` goes.
pub fn plan_write(config: &MultiWriteConfig, path: &str, size: u64) -> (r: WriteRoute)
    ensures
        match first_matching(config.spec_redirects(), path@, size) {
            Some(k) => match config.spec_redirects()[k].spec_target() {
                Some(t) => r matches WriteRoute::Redirect { targets, backends } && targets@ == t
                    && backends@ == spec_named_backends(config.spec_backends(), t),
                None => r matches WriteRoute::Primary { backups } && backups@ == config.spec_write_targets(path@, size),
            },
            None => r matches WriteRoute::Primary { backups } && backups@ == config.spec_write_targets(path@, size),
        },
{
    match config.check_redirect(path, size) {
        Some(targets) => {
            let backends = config.backends_named(&targets);
            WriteRoute::Redirect { targets, backends }
        },
        None => WriteRoute::Primary { backups: config.write_targets(path, size) },
    }
}

/// The backups that receive a rename: the redirect targets of a redirected
/// file, otherwise the write targets of the old path.
pub fn rename_fanout_targets(config: &MultiWriteConfig, old_path: &str, redirect: Option<&RedirectEntry>) -> (r: Vec<usize>)
    ensures
        r@ == match redirect {
            Some(e) => spec_named_backends(config.spec_backends(), e.targets@),
            None => config.spec_write_targets(old_path@, 0),
        },
{
    match redirect {
        Some(e) => config.backends_named(&e.targets),
        None => config.write_targets(old_path, 0),
    }
}

/// Whether a rename is applied on the primary: a redirected file lives only
/// on its redirect targets, so the primary holds nothing to rename.
pub fn rename_on_primary(redirect: Option<&RedirectEntry>) -> (r: bool)
    ensures
        r == redirect is None,
{
    redirect.is_none()
}

/// The directories and names a rename touches.
#[derive(Debug)]
pub struct RenamePlan {
    pub source_dir: String,
    pub target_dir: String,
    pub old_name: String,
    pub new_name: String,
    /// Source and target directory are the same (one lock, one metadata pair).
    pub same_dir: bool,
}

/// Split a rename into its directories and names.
pub fn plan_rename(old_path: &str, new_path: &str) -> (r: RenamePlan)
    ensures
        r.source_dir@ == spec_parent_dir(old_path@),
        r.target_dir@ == spec_parent_dir(new_path@),
        r.old_name@ == spec_file_name(old_path@),
        r.new_name@ == spec_file_name(new_path@),
        r.same_dir == (spec_parent_dir(old_path@) == spec_parent_dir(new_path@)),
{
    let source_dir = parent_dir(old_path);
    let target_dir = parent_dir(new_path);
    let same_dir = str_eq(source_dir.as_str(), target_dir.as_str());
    RenamePlan {
        source_dir,
        target_dir,
        old_name: String::from_str(file_name(old_path)),
        new_name: String::from_str(file_name(new_path)),
        same_dir,
    }
}

} // verus!
