//! The outcome of one process execution: output streams, exit code, the
//! produced output tree, and a record of execution attempts.

use vstd::prelude::*;

use crate::digest::{Digest, DigestView};

verus! {

/// One attempt at running the process, kept for diagnostics.
#[derive(Clone, Copy, PartialEq, Eq, Structural, Debug)]
pub struct ExecutionAttempt {
    /// How long the attempt took.
    pub duration_ms: u64,
    /// Whether the attempt ran on a remote executor.
    pub remote: bool,
}

/// An output stream: held inline when small, or as a reference into the
/// content-addressed store when large.
#[derive(Clone, Debug, PartialEq, Eq)]
pub enum StreamData {
    Inline(Vec<u8>),
    Stored(Digest),
}

/// Mathematical form of a [`StreamData`].
pub ghost enum StreamDataView {
    Inline(Seq<u8>),
    Stored(DigestView),
}

impl StreamDataView {
    pub open spec fn wf(self) -> bool {
        match self {
            StreamDataView::Inline(b) => b.len() <= u64::MAX,
            StreamDataView::Stored(d) => d.wf(),
        }
    }
}

impl View for StreamData {
    type V = StreamDataView;

    open spec fn view(&self) -> StreamDataView {
        match self {
            StreamData::Inline(b) => StreamDataView::Inline(b@),
            StreamData::Stored(d) => StreamDataView::Stored(d@),
        }
    }
}

/// A complete execution outcome, as produced by an executor and as
/// reconstructed from the cache on a hit.
#[derive(Clone, Debug, PartialEq, Eq)]
pub struct ExecutionResult {
    pub stdout: StreamData,
    pub stderr: StreamData,
    pub exit_code: i32,
    pub output_digest: Digest,
    pub attempts: Vec<ExecutionAttempt>,
}

/// Mathematical form of an [`ExecutionResult`].
pub ghost struct ExecutionResultView {
    pub stdout: StreamDataView,
    pub stderr: StreamDataView,
    pub exit_code: i32,
    pub output_digest: DigestView,
    pub attempts: Seq<ExecutionAttempt>,
}

impl ExecutionResultView {
    /// Digests have the width of the content hash and all counts fit the
    /// wire format.
    pub open spec fn wf(self) -> bool {
        &&& self.stdout.wf()
        &&& self.stderr.wf()
        &&& self.output_digest.wf()
        &&& self.attempts.len() <= u64::MAX
    }
}

impl View for ExecutionResult {
    type V = ExecutionResultView;

    open spec fn view(&self) -> ExecutionResultView {
        ExecutionResultView {
            stdout: self.stdout@,
            stderr: self.stderr@,
            exit_code: self.exit_code,
            output_digest: self.output_digest@,
            attempts: self.attempts@,
        }
    }
}

impl StreamData {
    /// Executable check of the view's well-formedness.
    pub fn is_wf(&self) -> (r: bool)
        ensures
            r == self@.wf(),
    {
        match self {
            StreamData::Inline(b) => {
                proof {
                    vstd::std_specs::vec::axiom_spec_len(b);
                }
                true
            },
            StreamData::Stored(d) => d.fingerprint.len() == crate::FINGERPRINT_LEN,
        }
    }
}

impl ExecutionResult {
    pub open spec fn wf(&self) -> bool {
        self@.wf()
    }

    /// Executable check of the view's well-formedness.
    pub fn is_wf(&self) -> (r: bool)
        ensures
            r == self.wf(),
    {
        proof {
            vstd::std_specs::vec::axiom_spec_len(&self.attempts);
        }
        self.stdout.is_wf() && self.stderr.is_wf() && self.output_digest.fingerprint.len()
            == crate::FINGERPRINT_LEN
    }
}

} // verus!
