//! Reports on how far a session has come.

use vstd::prelude::*;

use crate::error::{ErrorView, Result};

verus! {

/// How far a session has come.
#[derive(Debug, Clone, Copy, PartialEq, Eq, Structural)]
pub struct ProgressSnapshot {
    /// Samples per channel done so far.
    pub processed_samples: u64,
    /// Samples per channel in all.
    pub total_samples: u64,
    /// Frames done so far.
    pub completed_frames: usize,
    /// Frames in all.
    pub total_frames: usize,
    /// Bytes of the input that were taken in so far. An encode session counts the bytes
    /// of the samples in its frames.
    pub input_bytes_read: u64,
    /// Bytes written so far.
    pub output_bytes_written: u64,
}

/// Someone who is told how far a session has come, and may end it with an error.
pub trait ProgressSink: Sized {
    /// What was told so far.
    spec fn told(&self) -> Seq<ProgressSnapshot>;

    /// No report ends the session.
    spec fn accepts(&self) -> bool;

    /// How many reports there were when the last one of them was refused, and its error,
    /// if one was.
    spec fn refused(&self) -> Option<(nat, ErrorView)>;

    /// Takes in a report.
    fn on_frame(&mut self, snapshot: ProgressSnapshot) -> (result: Result<()>)
        ensures
            final(self).told() == old(self).told().push(snapshot),
            old(self).accepts() ==> result is Ok && final(self).accepts(),
            result is Ok ==> final(self).refused() == old(self).refused(),
            result matches Err(error) ==> final(self).refused() == Some(
                (final(self).told().len(), error@),
            ),
    ;
}

/// A report that was refused ends a session with the error of the refusal, and no report
/// follows it.
pub open spec fn refusal_is_told<P: ProgressSink, T>(before: P, after: P, result: Result<T>) -> bool {
    match result {
        Ok(_) => after.refused() == before.refused(),
        Err(error) => after.refused() == before.refused() || after.refused() == Some(
            (after.told().len(), error@),
        ),
    }
}

/// Some of the reports were told, from the first one on and each once.
pub open spec fn front_is_told(
    reports: Seq<ProgressSnapshot>,
    before: Seq<ProgressSnapshot>,
    after: Seq<ProgressSnapshot>,
) -> bool {
    exists|count: int|
        #![trigger reports.take(count)]
        0 <= count <= reports.len() && after == before + reports.take(count)
}

/// No report is a front of all reports.
pub proof fn lemma_none_is_told(reports: Seq<ProgressSnapshot>, told: Seq<ProgressSnapshot>)
    ensures
        front_is_told(reports, told, told),
{
    assert(told + reports.take(0) == told);
}

/// No one is told.
pub struct NoProgress {
    told: Ghost<Seq<ProgressSnapshot>>,
}

impl NoProgress {
    /// No one is told.
    pub fn new() -> (progress: Self)
        ensures
            progress.told() == Seq::<ProgressSnapshot>::empty(),
            progress.accepts(),
    {
        NoProgress { told: Ghost(Seq::empty()) }
    }
}

impl ProgressSink for NoProgress {
    closed spec fn told(&self) -> Seq<ProgressSnapshot> {
        self.told@
    }

    closed spec fn accepts(&self) -> bool {
        true
    }

    closed spec fn refused(&self) -> Option<(nat, ErrorView)> {
        None
    }

    fn on_frame(&mut self, snapshot: ProgressSnapshot) -> (result: Result<()>) {
        self.told = Ghost(self.told@.push(snapshot));
        Ok(())
    }
}

/// Keeps all reports.
#[derive(Debug, Clone)]
pub struct ProgressLog {
    pub snapshots: Vec<ProgressSnapshot>,
}

impl ProgressLog {
    /// A log without reports.
    pub fn new() -> (log: Self)
        ensures
            log.told() == Seq::<ProgressSnapshot>::empty(),
            log.accepts(),
    {
        ProgressLog { snapshots: Vec::new() }
    }
}

impl ProgressSink for ProgressLog {
    open spec fn told(&self) -> Seq<ProgressSnapshot> {
        self.snapshots@
    }

    open spec fn accepts(&self) -> bool {
        true
    }

    open spec fn refused(&self) -> Option<(nat, ErrorView)> {
        None
    }

    fn on_frame(&mut self, snapshot: ProgressSnapshot) -> (result: Result<()>) {
        self.snapshots.push(snapshot);
        Ok(())
    }
}

/// Hands every report to a callback, whose error ends the session.
pub struct CallbackProgress<F: Fn(ProgressSnapshot) -> Result<()>> {
    callback: F,
    told: Ghost<Seq<ProgressSnapshot>>,
    refused: Ghost<Option<(nat, ErrorView)>>,
}

impl<F: Fn(ProgressSnapshot) -> Result<()>> CallbackProgress<F> {
    /// The callback takes every report.
    #[verifier::type_invariant]
    spec fn takes_reports(&self) -> bool {
        forall|snapshot: ProgressSnapshot| #[trigger] call_requires(self.callback, (snapshot,))
    }

    /// Reports go to a callback.
    pub fn new(callback: F) -> (progress: Self)
        requires
            forall|snapshot: ProgressSnapshot| #[trigger] call_requires(callback, (snapshot,)),
        ensures
            progress.told() == Seq::<ProgressSnapshot>::empty(),
            progress.refused() is None,
            progress.accepts() == accepts_reports(callback),
    {
        CallbackProgress { callback, told: Ghost(Seq::empty()), refused: Ghost(None) }
    }
}

/// A callback that refuses no report.
pub open spec fn accepts_reports<F: Fn(ProgressSnapshot) -> Result<()>>(callback: F) -> bool {
    forall|snapshot: ProgressSnapshot, result: Result<()>| #[trigger]
        call_ensures(callback, (snapshot,), result) ==> result is Ok
}

impl<F: Fn(ProgressSnapshot) -> Result<()>> ProgressSink for CallbackProgress<F> {
    closed spec fn told(&self) -> Seq<ProgressSnapshot> {
        self.told@
    }

    closed spec fn accepts(&self) -> bool {
        accepts_reports(self.callback)
    }

    closed spec fn refused(&self) -> Option<(nat, ErrorView)> {
        self.refused@
    }

    fn on_frame(&mut self, snapshot: ProgressSnapshot) -> (result: Result<()>) {
        proof {
            use_type_invariant(&*self);
        }
        let result = (self.callback)(snapshot);
        self.told = Ghost(self.told@.push(snapshot));
        match &result {
            Ok(()) => {},
            Err(error) => {
                self.refused = Ghost(Some((self.told@.len(), error@)));
            },
        }
        result
    }
}

} // verus!
