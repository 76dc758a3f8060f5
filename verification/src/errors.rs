//! Errors of the task store.
//!
//! The taxonomy: a missing file or group (recoverable, often treated as an
//! empty store), a malformed line on load (fatal to the whole load; a partial
//! store is never returned), an out-of-range task number (the operation is
//! skipped, the store is otherwise unchanged), and a create/write failure
//! (which can leave the file inconsistent with the in-memory store).

use crate::codec::{dec_rep, usize_to_string};
use vstd::prelude::*;

verus! {

#[derive(Clone, Copy, Debug, PartialEq, Eq, Structural)]
pub enum StoreError {
    /// The backing file, and so the group, does not exist.
    NotFound,
    /// A line of the backing file is malformed.
    Parse,
    /// A task number out of the store's range; carries the offending index.
    Index(usize),
    /// The backing file could not be created or written.
    Io,
}

pub open spec fn error_message(e: StoreError) -> Seq<char> {
    match e {
        StoreError::NotFound => "task group not found"@,
        StoreError::Parse => "malformed task line"@,
        StoreError::Index(i) => "no task with number "@ + dec_rep(i as nat),
        StoreError::Io => "unable to write tasks"@,
    }
}

impl StoreError {
    /// A short display text for the error, naming the offending task number
    /// where there is one.
    pub fn message(&self) -> (r: String)
        ensures
            r@ == error_message(*self),
    {
        match self {
            StoreError::NotFound => "task group not found".to_owned(),
            StoreError::Parse => "malformed task line".to_owned(),
            StoreError::Index(i) => {
                let mut s = "no task with number ".to_owned();
                let num = usize_to_string(*i);
                s.append(num.as_str());
                s
            },
            StoreError::Io => "unable to write tasks".to_owned(),
        }
    }
}

} // verus!
