//! Group names and their backing files.
//!
//! Every group is persisted in one file of a fixed-name directory; the file
//! name is the group name, and a group exists exactly when its file does.
//! A store created without an explicit group uses the default group name.

use vstd::prelude::*;

verus! {

/// The directory that holds one file per task group.
pub open spec fn tasks_dir() -> Seq<char> {
    ".tasks"@
}

/// The group name used when none is given.
pub open spec fn default_group_name() -> Seq<char> {
    "miscellaneous"@
}

/// The backing file path of a group: the tasks directory, a separator, and
/// the group name.
pub open spec fn group_path(group: Seq<char>) -> Seq<char> {
    tasks_dir() + "/"@ + group
}

/// The name of the directory that holds the group files.
pub fn tasks_dir_name() -> (r: &'static str)
    ensures
        r@ == tasks_dir(),
{
    ".tasks"
}

/// Joins the tasks directory with a group name to form the group's backing
/// file path.
pub fn resolve_group_path(group_name: &str) -> (r: String)
    ensures
        r@ == group_path(group_name@),
{
    let mut s = ".tasks".to_owned();
    s.append("/");
    s.append(group_name);
    s
}

} // verus!
