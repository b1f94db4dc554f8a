use vstd::prelude::*;

use crate::naming::{extension_of, make_name, unique_name, NameError};

verus! {

/// The counters of one relocation run.
pub struct Run {
    total: u64,
    next_seq: u64,
    completed: u64,
}

/// What a run holds: the number of files counted before the start, the
/// sequence number the next new name takes, and the number of relocation
/// attempts so far (the progress position).
pub struct RunView {
    pub total: nat,
    pub next_seq: nat,
    pub completed: nat,
}

/// A run after `k` more relocation attempts.
pub open spec fn after_attempts(v: RunView, k: nat) -> RunView {
    RunView { completed: v.completed + k, ..v }
}

impl View for Run {
    type V = RunView;

    closed spec fn view(&self) -> RunView {
        RunView {
            total: self.total as nat,
            next_seq: self.next_seq as nat,
            completed: self.completed as nat,
        }
    }
}

impl Run {
    /// A run over `total` counted files; none where there is nothing to move.
    pub fn start(total: u64) -> (r: Option<Run>)
        ensures
            total == 0 <==> r is None,
            r is Some ==> r->Some_0@ == (RunView { total: total as nat, next_seq: 0, completed: 0 }),
    {
        if total == 0 {
            None
        } else {
            Some(Run { total, next_seq: 0, completed: 0 })
        }
    }

    /// The number of files counted before the start.
    pub fn total(&self) -> (r: u64)
        ensures
            r == self@.total,
    {
        self.total
    }

    /// The progress position: how many relocations were attempted.
    pub fn completed(&self) -> (r: u64)
        ensures
            r == self@.completed,
    {
        self.completed
    }

    /// The sequence number that the next new name takes.
    pub fn next_seq(&self) -> (r: u64)
        ensures
            r == self@.next_seq,
    {
        self.next_seq
    }

    /// Takes the next sequence number and makes the new name of a file with
    /// it. The number is used up whether or not the name has an extension.
    pub fn next_name(&mut self, file_name: &str, timestamp: u128) -> (r: Result<String, NameError>)
        requires
            old(self)@.next_seq < u64::MAX,
        ensures
            final(self)@ == (RunView { next_seq: old(self)@.next_seq + 1, ..old(self)@ }),
            match extension_of(file_name@) {
                None => r == Err::<String, NameError>(NameError::NoExtension),
                Some(ext) => r is Ok && r->Ok_0@ == unique_name(
                    file_name@,
                    timestamp as nat,
                    old(self)@.next_seq,
                    ext,
                ),
            },
    {
        let seq = self.next_seq;
        self.next_seq = seq + 1;
        make_name(file_name, timestamp, seq)
    }

    /// Counts one relocation attempt, moved or not, and gives the new
    /// progress position. The position is not bounded by the total: a file
    /// met twice is counted twice.
    pub fn record_attempt(&mut self) -> (r: u64)
        requires
            old(self)@.completed < u64::MAX,
        ensures
            final(self)@ == after_attempts(old(self)@, 1),
            r == final(self)@.completed,
    {
        self.completed = self.completed + 1;
        self.completed
    }
}

/// Attempts add up: `a` attempts and then `b` more are `a + b` attempts.
pub proof fn lemma_attempts_add(v: RunView, a: nat, b: nat)
    ensures
        after_attempts(after_attempts(v, a), b) == after_attempts(v, a + b),
{
}

/// The progress position counts attempts, not files. A fresh run whose
/// first pass attempts `first > 0` top-level files and whose second pass
/// attempts every counted file again ends past its total, with the total
/// unchanged.
pub proof fn lemma_position_passes_total(start: RunView, first: nat, second: nat)
    requires
        start.completed == 0,
        first > 0,
        second >= start.total,
    ensures
        after_attempts(after_attempts(start, first), second).total == start.total,
        after_attempts(after_attempts(start, first), second).completed > start.total,
{
    lemma_attempts_add(start, first, second);
}

} // verus!
