//! The caching runner: a drop-in substitute for an executor that avoids
//! re-executing a process whose result is already cached.
//!
//! One run is the state machine lookup, then hit, or miss, execute, store:
//! the request is fingerprinted; the store is consulted; a present entry
//! that decodes cleanly is returned without executing; anything else is a
//! miss, on which the underlying executor runs and a success is encoded and
//! written back best-effort.  Only cache-local faults are absorbed: a
//! malformed request or an executor failure is surfaced unchanged.

use vstd::prelude::*;
use vstd::string::StringExecFns;

use crate::canon::{fingerprint, fingerprint_spec, ExecutionRequest, ExecutionRequestView,
    MalformedRequestError};
use crate::codec::{decode, decode_spec, encode, encode_spec, lemma_codec_round_trip};
use crate::digest::{Digest, DigestView};
use crate::result::{ExecutionResult, ExecutionResultView};
use crate::store::Store;

verus! {

/// The error one caching run surfaces to its caller.
#[derive(PartialEq, Eq, Debug)]
pub enum RunError {
    /// The request could not be fingerprinted; never retried, never cached.
    Malformed(MalformedRequestError),
    /// The underlying executor failed; propagated verbatim, never cached.
    Executor(String),
}

/// The underlying process executor.  Implemented by its users — a local
/// spawner, a remote service — and injected into the runner, which is
/// polymorphic over it.  An implementation must hand back well-formed
/// results; nothing else is assumed of it.
pub trait Executor {
    fn run(&mut self, req: &ExecutionRequest) -> (r: Result<ExecutionResult, String>)
        ensures
            (r matches Ok(v) ==> v.wf()),
    ;
}

/// What looking `fp` up in store contents `m` yields: the decoded result,
/// or nothing usable — absent, or present but failing to decode, which is
/// never surfaced as an error, only forfeits the speedup.
pub open spec fn lookup_spec(m: Map<Seq<u8>, Seq<u8>>, fp: Seq<u8>) -> Option<
    ExecutionResultView,
> {
    if m.contains_key(fp) {
        match decode_spec(m[fp]) {
            Ok(v) => Some(v),
            Err(_) => None,
        }
    } else {
        None
    }
}

/// A caching layer in front of `executor`, backed by `store`.  Holds no
/// state of its own beyond the two handles and two counters kept for
/// diagnostics: how often the executor ran, and how often a cache write
/// failed (each such failure was absorbed, never surfaced).
pub struct CachingRunner<E: Executor, S: Store> {
    pub executor: E,
    pub store: S,
    pub executions: u64,
    pub store_write_failures: u64,
}

impl<E: Executor, S: Store> CachingRunner<E, S> {
    /// Wrap `executor` behind the cache held in `store`.
    pub fn new(executor: E, store: S) -> (r: CachingRunner<E, S>)
        ensures
            r.store.contents() == store.contents(),
            r.executions == 0,
            r.store_write_failures == 0,
    {
        CachingRunner { executor, store, executions: 0, store_write_failures: 0 }
    }

    /// Complete a miss for `digest`, given what the executor returned: a
    /// success is encoded and written back best-effort and handed to the
    /// caller; a failure is surfaced unchanged and nothing is written.
    pub fn finish_miss(&mut self, digest: Digest, outcome: Result<ExecutionResult, String>) -> (r:
        Result<ExecutionResult, RunError>)
        requires
            digest.wf(),
            (outcome matches Ok(v) ==> v.wf()),
            old(self).store_write_failures < u64::MAX,
        ensures
            final(self).executions == old(self).executions,
            (match outcome {
                Ok(v) => r == Ok::<ExecutionResult, RunError>(v) && (final(self).store.contents()
                    == old(self).store.contents().insert(digest@.fingerprint, encode_spec(v@))
                    && final(self).store_write_failures == old(self).store_write_failures || final(self).store.contents() == old(self).store.contents() && final(self).store_write_failures == old(self).store_write_failures + 1),
                Err(s) => r == Err::<ExecutionResult, RunError>(RunError::Executor(s)) && final(self).store.contents() == old(self).store.contents() && final(self).store_write_failures == old(self).store_write_failures,
            }),
    {
        match outcome {
            Ok(v) => {
                let bytes = encode(&v);
                match self.store.put(&digest, bytes) {
                    Ok(_) => {},
                    Err(_) => {
                        self.store_write_failures = self.store_write_failures + 1;
                    },
                }
                Ok(v)
            },
            Err(s) => Err(RunError::Executor(s)),
        }
    }

    /// Run `req` through the cache: behaviorally indistinguishable from
    /// running it directly, except that a usable cached entry answers
    /// without invoking the executor.
    ///
    /// The contract walks the state machine: a request that cannot be
    /// fingerprinted fails with that error and touches nothing; a usable
    /// entry is returned as decoded, with the executor not invoked; on a
    /// miss the executor runs exactly once, a failure is surfaced
    /// unchanged with nothing written, and a success is returned with the
    /// entry written under the fingerprint unless the write failed, which
    /// is absorbed and counted.
    pub fn run(&mut self, req: &ExecutionRequest) -> (r: Result<ExecutionResult, RunError>)
        requires
            old(self).executions < u64::MAX,
            old(self).store_write_failures < u64::MAX,
        ensures
            (match fingerprint_spec(req@) {
                Err(e) => r == Err::<ExecutionResult, RunError>(RunError::Malformed(e)) && final(self).store.contents() == old(self).store.contents() && final(self).executions == old(self).executions && final(self).store_write_failures == old(self).store_write_failures,
                Ok(d) => match lookup_spec(old(self).store.contents(), d.fingerprint) {
                    Some(v) => (r matches Ok(res) && res@ == v && res.wf()) && final(self).store.contents() == old(self).store.contents() && final(self).executions
                        == old(self).executions && final(self).store_write_failures == old(self).store_write_failures,
                    None => {
                        &&& final(self).executions == old(self).executions + 1
                        &&& (r matches Ok(res) ==> res.wf() && (final(self).store.contents()
                            == old(self).store.contents().insert(d.fingerprint, encode_spec(res@))
                            && final(self).store_write_failures == old(self).store_write_failures
                            || final(self).store.contents() == old(self).store.contents() && final(self).store_write_failures == old(self).store_write_failures + 1))
                        &&& (r matches Err(e) ==> e matches RunError::Executor(_) && final(self).store.contents() == old(self).store.contents() && final(self).store_write_failures == old(self).store_write_failures)
                    },
                },
            }),
    {
        let digest = match fingerprint(req) {
            Err(e) => {
                return Err(RunError::Malformed(e));
            },
            Ok(d) => d,
        };
        match self.store.get(&digest) {
            Some(bytes) => {
                match decode(&bytes) {
                    Ok(res) => {
                        return Ok(res);
                    },
                    Err(_) => {
                        // present but unreadable: treated exactly as a miss
                    },
                }
            },
            None => {},
        }
        self.executions = self.executions + 1;
        let outcome = self.executor.run(req);
        self.finish_miss(digest, outcome)
    }
}

impl<E: Executor, S: Store> Executor for CachingRunner<E, S> {
    /// The cache is a drop-in, behavior-preserving substitute for direct
    /// execution: a caching runner is itself an executor, so layers
    /// compose.  Cache-specific error detail is flattened into the
    /// executor-level error string.
    fn run(&mut self, req: &ExecutionRequest) -> (r: Result<ExecutionResult, String>) {
        if self.executions == u64::MAX || self.store_write_failures == u64::MAX {
            return Err(String::from_str("cache runner counters are saturated"));
        }
        match self.run(req) {
            Ok(v) => Ok(v),
            Err(RunError::Executor(s)) => Err(s),
            Err(RunError::Malformed(MalformedRequestError::InvalidInputDigest)) => Err(
                String::from_str("malformed request: invalid input digest"),
            ),
            Err(RunError::Malformed(MalformedRequestError::DuplicateEnvKey)) => Err(
                String::from_str("malformed request: duplicate environment key"),
            ),
            Err(RunError::Malformed(MalformedRequestError::DuplicatePlatformKey)) => Err(
                String::from_str("malformed request: duplicate platform key"),
            ),
        }
    }
}

/// An executor that replays a fixed script of outcomes, oldest first, and
/// counts its invocations.  Stands in for a real process spawner when the
/// runner is exercised directly; running past the end of the script, or a
/// scripted success that is not well formed, fails.
pub struct ScriptedExecutor {
    outcomes: Vec<Result<ExecutionResult, String>>,
    calls: u64,
}

impl ScriptedExecutor {
    /// How many times this executor has run.
    pub closed spec fn calls(&self) -> u64 {
        self.calls
    }

    /// An executor that will hand out `outcomes` in order.
    pub fn new(outcomes: Vec<Result<ExecutionResult, String>>) -> (r: ScriptedExecutor)
        ensures
            r.calls() == 0,
    {
        ScriptedExecutor { outcomes, calls: 0 }
    }

    /// How many times this executor has run.
    pub fn call_count(&self) -> (r: u64)
        ensures
            r == self.calls(),
    {
        self.calls
    }
}

impl Executor for ScriptedExecutor {
    fn run(&mut self, _req: &ExecutionRequest) -> (r: Result<ExecutionResult, String>) {
        if self.calls < u64::MAX {
            self.calls = self.calls + 1;
        }
        if self.outcomes.len() == 0 {
            return Err(String::from_str("script exhausted"));
        }
        let out = self.outcomes.remove(0);
        match out {
            Ok(v) => {
                if v.is_wf() {
                    Ok(v)
                } else {
                    Err(String::from_str("scripted result is malformed"))
                }
            },
            Err(s) => Err(s),
        }
    }
}

/// Mathematical form of the caller-facing outcome of one run.
pub ghost enum RunOutcomeView {
    Done(ExecutionResultView),
    Malformed(MalformedRequestError),
    Failed(Seq<char>),
}

/// One run of the caching state machine, in the mathematical model, over
/// store contents `m`: fingerprint, look up, and on a miss execute and
/// write back.  `exec` is what the executor returns if it is invoked, and
/// `put_ok` whether the store accepts the write.  Yields the outcome, the
/// contents afterwards, and whether the executor was invoked.
pub open spec fn run_model(
    m: Map<Seq<u8>, Seq<u8>>,
    rv: ExecutionRequestView,
    exec: Result<ExecutionResultView, Seq<char>>,
    put_ok: bool,
) -> (RunOutcomeView, Map<Seq<u8>, Seq<u8>>, bool) {
    match fingerprint_spec(rv) {
        Err(e) => (RunOutcomeView::Malformed(e), m, false),
        Ok(d) => match lookup_spec(m, d.fingerprint) {
            Some(v) => (RunOutcomeView::Done(v), m, false),
            None => match exec {
                Err(s) => (RunOutcomeView::Failed(s), m, true),
                Ok(v) => (
                    RunOutcomeView::Done(v),
                    if put_ok {
                        m.insert(d.fingerprint, encode_spec(v))
                    } else {
                        m
                    },
                    true,
                ),
            },
        },
    }
}

/// Cache transparency: when a run of `rv` succeeds with `v` and its write
/// is accepted, a second run over the resulting contents returns the equal
/// result without invoking the executor — across the two runs the executor
/// runs at most once, and the second run leaves the store as it found it.
pub proof fn lemma_cache_transparency(
    m: Map<Seq<u8>, Seq<u8>>,
    rv: ExecutionRequestView,
    d: DigestView,
    v: ExecutionResultView,
    exec2: Result<ExecutionResultView, Seq<char>>,
    put_ok2: bool,
)
    requires
        v.wf(),
        fingerprint_spec(rv) == Ok::<DigestView, MalformedRequestError>(d),
    ensures
        ({
            let (o1, m1, x1) = run_model(m, rv, Ok(v), true);
            let (o2, m2, x2) = run_model(m1, rv, exec2, put_ok2);
            &&& o1 matches RunOutcomeView::Done(_)
            &&& o2 == o1
            &&& m2 == m1
            &&& !(x1 && x2)
        }),
{
    match lookup_spec(m, d.fingerprint) {
        Some(_) => {
        },
        None => {
            lemma_codec_round_trip(v);
            let m1 = m.insert(d.fingerprint, encode_spec(v));
            assert(m1.contains_key(d.fingerprint));
            assert(m1[d.fingerprint] == encode_spec(v));
            assert(lookup_spec(m1, d.fingerprint) == Some(v));
        },
    }
}

/// Non-poisoning: an executor failure leaves the store unchanged and no
/// usable entry under the request's fingerprint, so a subsequent run still
/// invokes the executor — a failure is never cached.
pub proof fn lemma_failure_not_cached(
    m: Map<Seq<u8>, Seq<u8>>,
    rv: ExecutionRequestView,
    d: DigestView,
    s: Seq<char>,
    put_ok1: bool,
    exec2: Result<ExecutionResultView, Seq<char>>,
    put_ok2: bool,
)
    requires
        fingerprint_spec(rv) == Ok::<DigestView, MalformedRequestError>(d),
        lookup_spec(m, d.fingerprint) is None,
    ensures
        ({
            let (o1, m1, x1) = run_model(m, rv, Err(s), put_ok1);
            &&& o1 == RunOutcomeView::Failed(s)
            &&& m1 == m
            &&& x1
            &&& lookup_spec(m1, d.fingerprint) is None
            &&& run_model(m1, rv, exec2, put_ok2).2
        }),
{
}

/// Fail-open on corruption: with bytes under the fingerprint that fail to
/// decode, a run behaves exactly as on a miss — same outcome, executor
/// invoked — and a stored success repairs the entry: the contents then
/// equal what the plain miss would have produced.
pub proof fn lemma_fail_open_on_corruption(
    m: Map<Seq<u8>, Seq<u8>>,
    rv: ExecutionRequestView,
    d: DigestView,
    bad: Seq<u8>,
    exec: Result<ExecutionResultView, Seq<char>>,
    put_ok: bool,
)
    requires
        fingerprint_spec(rv) == Ok::<DigestView, MalformedRequestError>(d),
        decode_spec(bad) is Err,
    ensures
        ({
            let (o1, m1, x1) = run_model(m.insert(d.fingerprint, bad), rv, exec, put_ok);
            let (o2, m2, x2) = run_model(m.remove(d.fingerprint), rv, exec, put_ok);
            &&& o1 == o2
            &&& x1 == x2
            &&& x1
            &&& (exec is Ok && put_ok ==> m1 == m2)
        }),
{
    let with_bad = m.insert(d.fingerprint, bad);
    let without = m.remove(d.fingerprint);
    assert(lookup_spec(with_bad, d.fingerprint) is None);
    assert(lookup_spec(without, d.fingerprint) is None);
    if exec is Ok && put_ok {
        let v = exec->Ok_0;
        assert(with_bad.insert(d.fingerprint, encode_spec(v)) =~= without.insert(
            d.fingerprint,
            encode_spec(v),
        ));
    }
}

/// A failed cache write is non-fatal: the run still hands the executor's
/// result to the caller; only the store is left unchanged.
pub proof fn lemma_write_failure_nonfatal(
    m: Map<Seq<u8>, Seq<u8>>,
    rv: ExecutionRequestView,
    d: DigestView,
    v: ExecutionResultView,
)
    requires
        fingerprint_spec(rv) == Ok::<DigestView, MalformedRequestError>(d),
        lookup_spec(m, d.fingerprint) is None,
    ensures
        run_model(m, rv, Ok(v), false) == (RunOutcomeView::Done(v), m, true),
{
}

} // verus!
