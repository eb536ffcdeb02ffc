//! The course of an export: one artifact per requested format, written one
//! after the other, and nothing more once a write has failed.

use crate::format::{distinct, distinct_formats, SceneFormat};
use vstd::prelude::*;

verus! {

/// What an export run is, mathematically: the formats to write, how many of
/// them have been written, and whether a write has failed.
pub struct Progress {
    pub formats: Seq<SceneFormat>,
    pub written: nat,
    pub failed: bool,
}

impl Progress {
    /// No more formats are counted as written than there are.
    pub open spec fn valid(self) -> bool {
        self.written <= self.formats.len()
    }

    /// The format to write next: none after a failure, and none when every
    /// format has been written.
    pub open spec fn next(self) -> Option<SceneFormat> {
        if self.failed || self.written >= self.formats.len() {
            None
        } else {
            Some(self.formats[self.written as int])
        }
    }

    /// The run after the write of the next format ended as `written` tells.
    /// A run with no format to write next stays as it is.
    pub open spec fn after(self, written: bool) -> Progress {
        if self.next() is None {
            self
        } else if written {
            Progress { formats: self.formats, written: self.written + 1, failed: false }
        } else {
            Progress { formats: self.formats, written: self.written, failed: true }
        }
    }

    /// Every format has been written.
    pub open spec fn complete(self) -> bool {
        !self.failed && self.written == self.formats.len()
    }
}

/// An export run: the requested formats, each once, and how far their
/// writing has come.
#[derive(Debug)]
pub struct ExportRun {
    formats: Vec<SceneFormat>,
    written: usize,
    failed: bool,
}

impl View for ExportRun {
    type V = Progress;

    closed spec fn view(&self) -> Progress {
        Progress { formats: self.formats@, written: self.written as nat, failed: self.failed }
    }
}

impl ExportRun {
    /// What holds of every export run.
    #[verifier::type_invariant]
    pub open spec fn wf(self) -> bool {
        self@.valid()
    }

    /// A run that is to write the requested formats, each once, in the order
    /// in which they were first asked for.
    pub fn new(requested: &Vec<SceneFormat>) -> (run: ExportRun)
        ensures
            run@ == (Progress { formats: distinct(requested@), written: 0, failed: false }),
    {
        ExportRun { formats: distinct_formats(requested), written: 0, failed: false }
    }

    /// The format to write next, if there is one.
    pub fn next(&self) -> (format: Option<SceneFormat>)
        ensures
            format == self@.next(),
    {
        proof {
            use_type_invariant(self);
        }
        if self.failed || self.written >= self.formats.len() {
            None
        } else {
            Some(self.formats[self.written])
        }
    }

    /// Takes note of how the write of the next format ended: `written` tells
    /// whether its artifact is there. After a failure no format is next.
    pub fn record(&mut self, written: bool)
        ensures
            final(self)@ == old(self)@.after(written),
    {
        proof {
            use_type_invariant(&*self);
        }
        if self.failed || self.written >= self.formats.len() {
            return ;
        }
        if written {
            self.written = self.written + 1;
        } else {
            self.failed = true;
        }
    }

    /// Whether every format has been written.
    pub fn is_complete(&self) -> (complete: bool)
        ensures
            complete == self@.complete(),
    {
        proof {
            use_type_invariant(self);
        }
        !self.failed && self.written == self.formats.len()
    }
}

/// A run writes every requested format once and in order as long as no write
/// fails: after `k` writes the next format is the `k`-th of the distinct
/// formats, and after all of them the run is complete.
pub proof fn lemma_run_writes_each_format_once(run: Progress, k: nat)
    requires
        run.valid(),
        !run.failed,
        run.written == 0,
        k <= run.formats.len(),
    ensures
        after_writes(run, k).written == k,
        !after_writes(run, k).failed,
        after_writes(run, k).formats == run.formats,
        k < run.formats.len() ==> after_writes(run, k).next() == Some(run.formats[k as int]),
        k == run.formats.len() ==> after_writes(run, k).complete() && after_writes(run, k).next()
            is None,
    decreases k,
{
    if k > 0 {
        lemma_run_writes_each_format_once(run, (k - 1) as nat);
    }
}

/// The run after `k` writes that all succeeded.
pub open spec fn after_writes(run: Progress, k: nat) -> Progress
    decreases k,
{
    if k == 0 {
        run
    } else {
        after_writes(run, (k - 1) as nat).after(true)
    }
}

/// After a failed write nothing is written any more, whatever is recorded.
pub proof fn lemma_run_stops_at_first_failure(run: Progress, later: bool)
    requires
        run.next() is Some,
    ensures
        run.after(false).next() is None,
        run.after(false).written == run.written,
        !run.after(false).complete(),
        run.after(false).after(later) == run.after(false),
{
}

} // verus!
