//! What can be done about a problem.
use vstd::prelude::*;

verus! {

/// A command that would solve a problem, and the key that runs it.
#[derive(Clone, Copy, Debug)]
pub struct RecoveryHint {
    pub key_hint: char,
    pub command_label: &'static str,
}

impl RecoveryHint {
    /// The working copy of a Jujutsu repository was changed by another workspace.
    pub fn jj_update_stale() -> (r: RecoveryHint)
        ensures
            r.key_hint == 'u',
            r.command_label@ == "jj workspace update-stale"@,
    {
        RecoveryHint { key_hint: 'u', command_label: "jj workspace update-stale" }
    }
}

} // verus!
