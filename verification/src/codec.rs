//! The result codec: a bidirectional mapping between an in-memory
//! [`ExecutionResult`] and the persisted byte form of a cache entry.
//!
//! The byte layout is internal and versioned: a leading format-version byte
//! lets a future encoding reject entries written by an incompatible prior
//! one (the caller treats any rejection as a cache miss).  Decoding is
//! strict: truncated bytes, malformed fields and trailing garbage are all
//! rejected.

use vstd::prelude::*;

use crate::digest::{Digest, DigestView};
use crate::result::{ExecutionAttempt, ExecutionResult, ExecutionResultView, StreamData,
    StreamDataView};
use crate::wire::{blob, lemma_parse_blob_prefix, lemma_parse_u64_prefix, parse_blob,
    parse_u64, push_blob, push_u64_le, read_blob, read_u64_le, u64_le};

verus! {

/// Version tag of the persisted byte layout.
pub const FORMAT_VERSION: u8 = 1;

/// Why a persisted entry was rejected.  The caller treats every variant the
/// same way: as "no usable cache entry".
#[derive(Clone, Copy, PartialEq, Eq, Structural, Debug)]
pub enum DecodeError {
    /// The entry was written by an incompatible format version.
    UnsupportedVersion,
    /// The bytes are truncated or a field is structurally invalid.
    Malformed,
    /// Well-formed fields followed by trailing garbage.
    TrailingData,
}

/// The exit code shifted into an unsigned 32-bit range.
pub open spec fn exit_offset(e: i32) -> u64 {
    (e + 0x8000_0000) as u64
}

/// Inverse of [`exit_offset`] on values below 2^32.
pub open spec fn exit_unoffset(x: u64) -> i32 {
    (x - 0x8000_0000) as i32
}

/// Encoded form of a digest: length-prefixed fingerprint, then the size.
pub open spec fn enc_digest(d: DigestView) -> Seq<u8> {
    blob(d.fingerprint) + u64_le(d.size)
}

/// Encoded form of a stream: a tag byte, then an inline blob or a digest.
pub open spec fn enc_stream(s: StreamDataView) -> Seq<u8> {
    match s {
        StreamDataView::Inline(b) => seq![0u8] + blob(b),
        StreamDataView::Stored(d) => seq![1u8] + enc_digest(d),
    }
}

/// Encoded form of one execution attempt.
pub open spec fn enc_attempt(a: ExecutionAttempt) -> Seq<u8> {
    u64_le(a.duration_ms) + seq![
        if a.remote {
            1u8
        } else {
            0u8
        },
    ]
}

/// Encoded form of a sequence of attempts, in order.
pub open spec fn enc_attempts(s: Seq<ExecutionAttempt>) -> Seq<u8>
    decreases s.len(),
{
    if s.len() == 0 {
        Seq::empty()
    } else {
        enc_attempt(s.first()) + enc_attempts(s.drop_first())
    }
}

/// The fields of the persisted form, after the version byte.
pub open spec fn encode_body(v: ExecutionResultView) -> Seq<u8> {
    enc_stream(v.stdout) + (enc_stream(v.stderr) + (u64_le(exit_offset(v.exit_code)) + (enc_digest(
        v.output_digest,
    ) + (u64_le(v.attempts.len() as u64) + enc_attempts(v.attempts)))))
}

/// The persisted byte form of an execution result.
pub open spec fn encode_spec(v: ExecutionResultView) -> Seq<u8> {
    seq![FORMAT_VERSION] + encode_body(v)
}

/// Parse a digest from the front of `b`.
pub open spec fn parse_digest(b: Seq<u8>) -> Option<(DigestView, Seq<u8>)> {
    match parse_blob(b) {
        None => None,
        Some((fp, rest)) => if fp.len() == crate::FINGERPRINT_LEN {
            match parse_u64(rest) {
                None => None,
                Some((size, rest2)) => Some((DigestView { fingerprint: fp, size }, rest2)),
            }
        } else {
            None
        },
    }
}

/// Parse a stream from the front of `b`.
pub open spec fn parse_stream(b: Seq<u8>) -> Option<(StreamDataView, Seq<u8>)> {
    if b.len() < 1 {
        None
    } else if b[0] == 0u8 {
        match parse_blob(b.skip(1)) {
            None => None,
            Some((data, rest)) => Some((StreamDataView::Inline(data), rest)),
        }
    } else if b[0] == 1u8 {
        match parse_digest(b.skip(1)) {
            None => None,
            Some((d, rest)) => Some((StreamDataView::Stored(d), rest)),
        }
    } else {
        None
    }
}

/// Parse one attempt from the front of `b`.
pub open spec fn parse_attempt(b: Seq<u8>) -> Option<(ExecutionAttempt, Seq<u8>)> {
    match parse_u64(b) {
        None => None,
        Some((duration_ms, rest)) => if rest.len() >= 1 && (rest[0] == 0u8 || rest[0] == 1u8) {
            Some((ExecutionAttempt { duration_ms, remote: rest[0] == 1u8 }, rest.skip(1)))
        } else {
            None
        },
    }
}

/// Parse exactly `n` attempts from the front of `b`.
pub open spec fn parse_attempts(n: u64, b: Seq<u8>) -> Option<(Seq<ExecutionAttempt>, Seq<u8>)>
    decreases n,
{
    if n == 0 {
        Some((Seq::empty(), b))
    } else {
        match parse_attempt(b) {
            None => None,
            Some((a, rest)) => match parse_attempts((n - 1) as u64, rest) {
                None => None,
                Some((s, rest2)) => Some((seq![a] + s, rest2)),
            },
        }
    }
}

/// The fields that follow the two streams: exit code, output digest and
/// attempt count.
pub open spec fn parse_tail(b: Seq<u8>) -> Option<((i32, DigestView, u64), Seq<u8>)> {
    match parse_u64(b) {
        None => None,
        Some((code_raw, r3)) => if code_raw > 0xffff_ffff {
            None
        } else {
            match parse_digest(r3) {
                None => None,
                Some((od, r4)) => match parse_u64(r4) {
                    None => None,
                    Some((count, r5)) => Some(((exit_unoffset(code_raw), od, count), r5)),
                },
            }
        },
    }
}

/// Everything that precedes the attempt records: version byte, the two
/// streams, the exit code, the output digest and the attempt count.
pub open spec fn parse_prefix(b: Seq<u8>) -> Result<
    ((StreamDataView, StreamDataView, i32, DigestView, u64), Seq<u8>),
    DecodeError,
> {
    if b.len() < 1 {
        Err(DecodeError::Malformed)
    } else if b[0] != FORMAT_VERSION {
        Err(DecodeError::UnsupportedVersion)
    } else {
        match parse_stream(b.skip(1)) {
            None => Err(DecodeError::Malformed),
            Some((stdout, r1)) => match parse_stream(r1) {
                None => Err(DecodeError::Malformed),
                Some((stderr, r2)) => match parse_tail(r2) {
                    None => Err(DecodeError::Malformed),
                    Some((t, r5)) => Ok(((stdout, stderr, t.0, t.1, t.2), r5)),
                },
            },
        }
    }
}

/// The value decoded from persisted bytes, or the exact reason the bytes
/// are rejected.
pub open spec fn decode_spec(b: Seq<u8>) -> Result<ExecutionResultView, DecodeError> {
    match parse_prefix(b) {
        Err(e) => Err(e),
        Ok((fields, r5)) => match parse_attempts(fields.4, r5) {
            None => Err(DecodeError::Malformed),
            Some((atts, r6)) => if r6.len() == 0 {
                Ok(
                    ExecutionResultView {
                        stdout: fields.0,
                        stderr: fields.1,
                        exit_code: fields.2,
                        output_digest: fields.3,
                        attempts: atts,
                    },
                )
            } else {
                Err(DecodeError::TrailingData)
            },
        },
    }
}

/// An encoded digest at the front of a byte string parses back to itself.
pub proof fn lemma_parse_digest_prefix(d: DigestView, tail: Seq<u8>)
    requires
        d.wf(),
    ensures
        parse_digest(enc_digest(d) + tail) == Some((d, tail)),
{
    lemma_parse_blob_prefix(d.fingerprint, u64_le(d.size) + tail);
    assert(enc_digest(d) + tail =~= blob(d.fingerprint) + (u64_le(d.size) + tail));
    lemma_parse_u64_prefix(d.size, tail);
    assert(DigestView { fingerprint: d.fingerprint, size: d.size } == d);
}

/// An encoded stream at the front of a byte string parses back to itself.
pub proof fn lemma_parse_stream_prefix(s: StreamDataView, tail: Seq<u8>)
    requires
        s.wf(),
    ensures
        parse_stream(enc_stream(s) + tail) == Some((s, tail)),
{
    match s {
        StreamDataView::Inline(data) => {
            let b = enc_stream(s) + tail;
            assert(b[0] == 0u8);
            assert(b.skip(1) =~= blob(data) + tail);
            lemma_parse_blob_prefix(data, tail);
        },
        StreamDataView::Stored(d) => {
            let b = enc_stream(s) + tail;
            assert(b[0] == 1u8);
            assert(b.skip(1) =~= enc_digest(d) + tail);
            lemma_parse_digest_prefix(d, tail);
        },
    }
}

/// An encoded attempt at the front of a byte string parses back to itself.
pub proof fn lemma_parse_attempt_prefix(a: ExecutionAttempt, tail: Seq<u8>)
    ensures
        parse_attempt(enc_attempt(a) + tail) == Some((a, tail)),
{
    let flag = if a.remote {
        1u8
    } else {
        0u8
    };
    assert(enc_attempt(a) + tail =~= u64_le(a.duration_ms) + (seq![flag] + tail));
    lemma_parse_u64_prefix(a.duration_ms, seq![flag] + tail);
    assert((seq![flag] + tail)[0] == flag);
    assert((seq![flag] + tail).skip(1) =~= tail);
    assert(ExecutionAttempt { duration_ms: a.duration_ms, remote: a.remote } == a);
}

/// A run of encoded attempts at the front of a byte string parses back to
/// itself.
pub proof fn lemma_parse_attempts_prefix(s: Seq<ExecutionAttempt>, tail: Seq<u8>)
    requires
        s.len() <= u64::MAX,
    ensures
        parse_attempts(s.len() as u64, enc_attempts(s) + tail) == Some((s, tail)),
    decreases s.len(),
{
    if s.len() == 0 {
        assert(enc_attempts(s) + tail =~= tail);
        assert(s =~= Seq::<ExecutionAttempt>::empty());
    } else {
        lemma_parse_attempt_prefix(s.first(), enc_attempts(s.drop_first()) + tail);
        assert(enc_attempts(s) + tail =~= enc_attempt(s.first()) + (enc_attempts(s.drop_first())
            + tail));
        lemma_parse_attempts_prefix(s.drop_first(), tail);
        assert(seq![s.first()] + s.drop_first() =~= s);
    }
}

/// Encoding distributes over concatenation of attempt sequences.
proof fn lemma_enc_attempts_concat(a: Seq<ExecutionAttempt>, b: Seq<ExecutionAttempt>)
    ensures
        enc_attempts(a + b) == enc_attempts(a) + enc_attempts(b),
    decreases a.len(),
{
    if a.len() == 0 {
        assert(a + b =~= b);
        assert(enc_attempts(a) + enc_attempts(b) =~= enc_attempts(b));
    } else {
        assert((a + b).first() == a.first());
        assert((a + b).drop_first() =~= a.drop_first() + b);
        lemma_enc_attempts_concat(a.drop_first(), b);
        assert(enc_attempt(a.first()) + (enc_attempts(a.drop_first()) + enc_attempts(b))
            =~= (enc_attempt(a.first()) + enc_attempts(a.drop_first())) + enc_attempts(b));
    }
}

/// The encoded exit code, digest and count parse back to themselves.
#[verifier::rlimit(100)]
#[verifier::spinoff_prover]
proof fn lemma_parse_tail_of_encode(v: ExecutionResultView)
    requires
        v.wf(),
    ensures
        parse_tail(
            u64_le(exit_offset(v.exit_code)) + (enc_digest(v.output_digest) + (u64_le(
                v.attempts.len() as u64,
            ) + enc_attempts(v.attempts))),
        ) == Some(
            ((v.exit_code, v.output_digest, v.attempts.len() as u64), enc_attempts(v.attempts)),
        ),
{
    let t5 = enc_attempts(v.attempts);
    let t4 = u64_le(v.attempts.len() as u64) + t5;
    let t3 = enc_digest(v.output_digest) + t4;
    lemma_parse_u64_prefix(exit_offset(v.exit_code), t3);
    assert(exit_offset(v.exit_code) <= 0xffff_ffff);
    lemma_parse_digest_prefix(v.output_digest, t4);
    lemma_parse_u64_prefix(v.attempts.len() as u64, t5);
    assert(exit_unoffset(exit_offset(v.exit_code)) == v.exit_code);
}

/// The prefix of an encoding parses back to the encoded fields, leaving
/// exactly the encoded attempts.
#[verifier::rlimit(100)]
#[verifier::spinoff_prover]
proof fn lemma_parse_prefix_of_encode(v: ExecutionResultView)
    requires
        v.wf(),
    ensures
        parse_prefix(encode_spec(v)) == Ok::<
            ((StreamDataView, StreamDataView, i32, DigestView, u64), Seq<u8>),
            DecodeError,
        >(
            (
                (v.stdout, v.stderr, v.exit_code, v.output_digest, v.attempts.len() as u64),
                enc_attempts(v.attempts),
            ),
        ),
{
    let b = encode_spec(v);
    let t5 = enc_attempts(v.attempts);
    let t4 = u64_le(v.attempts.len() as u64) + t5;
    let t3 = enc_digest(v.output_digest) + t4;
    let t2 = u64_le(exit_offset(v.exit_code)) + t3;
    let t1 = enc_stream(v.stderr) + t2;
    assert(b[0] == FORMAT_VERSION);
    assert(b.skip(1) =~= encode_body(v));
    assert(encode_body(v) == enc_stream(v.stdout) + t1);
    lemma_parse_stream_prefix(v.stdout, t1);
    lemma_parse_stream_prefix(v.stderr, t2);
    lemma_parse_tail_of_encode(v);
}

/// Round trip: any well-formed execution result decodes from its own
/// encoding, to an equal value.
#[verifier::rlimit(100)]
#[verifier::spinoff_prover]
pub proof fn lemma_codec_round_trip(v: ExecutionResultView)
    requires
        v.wf(),
    ensures
        decode_spec(encode_spec(v)) == Ok::<ExecutionResultView, DecodeError>(v),
{
    lemma_parse_prefix_of_encode(v);
    assert(enc_attempts(v.attempts) =~= enc_attempts(v.attempts) + Seq::<u8>::empty());
    lemma_parse_attempts_prefix(v.attempts, Seq::<u8>::empty());
    assert(ExecutionResultView {
        stdout: v.stdout,
        stderr: v.stderr,
        exit_code: v.exit_code,
        output_digest: v.output_digest,
        attempts: v.attempts,
    } == v);
}

/// Append the encoding of a digest to `out`.
fn push_digest(out: &mut Vec<u8>, d: &Digest)
    ensures
        final(out)@ == old(out)@ + enc_digest(d@),
{
    push_blob(out, &d.fingerprint);
    push_u64_le(out, d.size);
    proof {
        assert(out@ =~= old(out)@ + enc_digest(d@));
    }
}

/// Append the encoding of a stream to `out`.
fn push_stream(out: &mut Vec<u8>, s: &StreamData)
    ensures
        final(out)@ == old(out)@ + enc_stream(s@),
{
    match s {
        StreamData::Inline(data) => {
            out.push(0u8);
            push_blob(out, data);
        },
        StreamData::Stored(d) => {
            out.push(1u8);
            push_digest(out, d);
        },
    }
    proof {
        assert(out@ =~= old(out)@ + enc_stream(s@));
    }
}

/// Append the encoding of one attempt to `out`.
fn push_attempt(out: &mut Vec<u8>, a: &ExecutionAttempt)
    ensures
        final(out)@ == old(out)@ + enc_attempt(*a),
{
    push_u64_le(out, a.duration_ms);
    if a.remote {
        out.push(1u8);
    } else {
        out.push(0u8);
    }
    proof {
        assert(out@ =~= old(out)@ + enc_attempt(*a));
    }
}

/// Shift the exit code into the unsigned wire range.
fn exit_offset_exec(e: i32) -> (r: u64)
    ensures
        r == exit_offset(e),
{
    let wide: i64 = (e as i64) + 0x8000_0000;
    wide as u64
}

/// Inverse of [`exit_offset_exec`].
fn exit_unoffset_exec(x: u64) -> (r: i32)
    requires
        x <= 0xffff_ffff,
    ensures
        r == exit_unoffset(x),
{
    let wide: i64 = (x as i64) - 0x8000_0000;
    wide as i32
}

/// Encode an execution result into its persisted byte form.
///
/// Total over every well-formed result, including empty streams, non-zero
/// exit codes and empty attempt records.
pub fn encode(res: &ExecutionResult) -> (out: Vec<u8>)
    requires
        res.wf(),
    ensures
        out@ == encode_spec(res@),
{
    let mut out: Vec<u8> = Vec::new();
    out.push(FORMAT_VERSION);
    push_stream(&mut out, &res.stdout);
    push_stream(&mut out, &res.stderr);
    push_u64_le(&mut out, exit_offset_exec(res.exit_code));
    push_digest(&mut out, &res.output_digest);
    push_u64_le(&mut out, res.attempts.len() as u64);
    let ghost prefix = out@;
    let mut i: usize = 0;
    while i < res.attempts.len()
        invariant
            i <= res.attempts@.len(),
            out@ == prefix + enc_attempts(res.attempts@.take(i as int)),
        decreases res.attempts@.len() - i,
    {
        push_attempt(&mut out, &res.attempts[i]);
        proof {
            assert(res.attempts@.take(i + 1) =~= res.attempts@.take(i as int) + seq![
                res.attempts@[i as int],
            ]);
            lemma_enc_attempts_concat(res.attempts@.take(i as int), seq![res.attempts@[i as int]]);
            assert(seq![res.attempts@[i as int]].drop_first() =~= Seq::<ExecutionAttempt>::empty());
            assert(enc_attempts(seq![res.attempts@[i as int]]) =~= enc_attempt(
                res.attempts@[i as int],
            ) + enc_attempts(Seq::<ExecutionAttempt>::empty()));
            assert(enc_attempts(seq![res.attempts@[i as int]]) =~= enc_attempt(
                res.attempts@[i as int],
            ));
            assert(out@ =~= prefix + enc_attempts(res.attempts@.take(i + 1)));
        }
        i = i + 1;
    }
    proof {
        assert(res.attempts@.take(res.attempts@.len() as int) =~= res.attempts@);
        assert(out@ =~= seq![FORMAT_VERSION] + encode_body(res@));
    }
    out
}

/// Read a digest at `pos`; `None` when the bytes there do not parse.
fn read_digest(b: &Vec<u8>, pos: usize) -> (r: Option<(Digest, usize)>)
    requires
        pos <= b@.len(),
    ensures
        match r {
            Some(p) => {
                &&& pos <= p.1 <= b@.len()
                &&& p.0.wf()
                &&& parse_digest(b@.skip(pos as int)) == Some((p.0@, b@.skip(p.1 as int)))
            },
            None => parse_digest(b@.skip(pos as int)) is None,
        },
{
    let len = b.len();
    match read_blob(b, pos) {
        None => None,
        Some((fp, pos2)) => {
            if fp.len() != crate::FINGERPRINT_LEN {
                return None;
            }
            if len - pos2 < 8 {
                proof {
                    assert(b@.skip(pos2 as int).len() < 8);
                }
                return None;
            }
            let size = read_u64_le(b, pos2);
            proof {
                crate::wire::lemma_le_val_take(b@.skip(pos2 as int));
            }
            Some((Digest { fingerprint: fp, size }, pos2 + 8))
        },
    }
}

/// Read a stream at `pos`; `None` when the bytes there do not parse.
fn read_stream(b: &Vec<u8>, pos: usize) -> (r: Option<(StreamData, usize)>)
    requires
        pos <= b@.len(),
    ensures
        match r {
            Some(p) => {
                &&& pos <= p.1 <= b@.len()
                &&& p.0@.wf()
                &&& parse_stream(b@.skip(pos as int)) == Some((p.0@, b@.skip(p.1 as int)))
            },
            None => parse_stream(b@.skip(pos as int)) is None,
        },
{
    let len = b.len();
    if len - pos < 1 {
        return None;
    }
    let tag = b[pos];
    proof {
        assert(b@.skip(pos as int)[0] == b@[pos as int]);
        assert(b@.skip(pos as int).skip(1) =~= b@.skip(pos as int + 1));
    }
    if tag == 0u8 {
        match read_blob(b, pos + 1) {
            None => None,
            Some((data, end)) => {
                proof {
                    vstd::std_specs::vec::axiom_spec_len(&data);
                }
                Some((StreamData::Inline(data), end))
            },
        }
    } else if tag == 1u8 {
        match read_digest(b, pos + 1) {
            None => None,
            Some((d, end)) => Some((StreamData::Stored(d), end)),
        }
    } else {
        None
    }
}

/// Read one attempt at `pos`; `None` when the bytes there do not parse.
fn read_attempt(b: &Vec<u8>, pos: usize) -> (r: Option<(ExecutionAttempt, usize)>)
    requires
        pos <= b@.len(),
    ensures
        match r {
            Some(p) => {
                &&& pos <= p.1 <= b@.len()
                &&& parse_attempt(b@.skip(pos as int)) == Some((p.0, b@.skip(p.1 as int)))
            },
            None => parse_attempt(b@.skip(pos as int)) is None,
        },
{
    let len = b.len();
    if len - pos < 8 {
        proof {
            assert(b@.skip(pos as int).len() < 8);
        }
        return None;
    }
    let duration_ms = read_u64_le(b, pos);
    proof {
        crate::wire::lemma_le_val_take(b@.skip(pos as int));
        assert(b@.skip(pos as int).skip(8) =~= b@.skip(pos as int + 8));
    }
    if len - pos - 8 < 1 {
        return None;
    }
    let flag = b[pos + 8];
    proof {
        assert(b@.skip(pos as int + 8)[0] == b@[pos as int + 8]);
        assert(b@.skip(pos as int + 8).skip(1) =~= b@.skip(pos as int + 9));
    }
    if flag == 0u8 || flag == 1u8 {
        Some((ExecutionAttempt { duration_ms, remote: flag == 1u8 }, pos + 9))
    } else {
        None
    }
}

/// Read a run of exactly `count` attempts starting at `pos`; `None` when
/// the bytes there do not parse.
fn read_attempts(b: &Vec<u8>, pos: usize, count: u64) -> (r: Option<(
    Vec<ExecutionAttempt>,
    usize,
)>)
    requires
        pos <= b@.len(),
    ensures
        match r {
            Some(p) => {
                &&& pos <= p.1 <= b@.len()
                &&& parse_attempts(count, b@.skip(pos as int)) == Some((p.0@, b@.skip(p.1 as int)))
            },
            None => parse_attempts(count, b@.skip(pos as int)) is None,
        },
{
    let mut cur: usize = pos;
    let mut attempts: Vec<ExecutionAttempt> = Vec::new();
    let mut k: u64 = 0;
    while k < count
        invariant
            k <= count,
            pos <= cur <= b@.len(),
            attempts@.len() == k,
            (match parse_attempts((count - k) as u64, b@.skip(cur as int)) {
                None => parse_attempts(count, b@.skip(pos as int)) is None,
                Some(p) => parse_attempts(count, b@.skip(pos as int)) == Some(
                    (attempts@ + p.0, p.1),
                ),
            }),
        decreases count - k,
    {
        match read_attempt(b, cur) {
            None => {
                proof {
                    assert(parse_attempts((count - k) as u64, b@.skip(cur as int)) is None);
                }
                return None;
            },
            Some((a, end)) => {
                proof {
                    let rest = b@.skip(cur as int);
                    let n = (count - k) as u64;
                    assert(parse_attempt(rest) == Some((a, b@.skip(end as int))));
                    match parse_attempts((n - 1) as u64, b@.skip(end as int)) {
                        None => {
                            assert(parse_attempts(n, rest) is None);
                        },
                        Some(p) => {
                            assert(parse_attempts(n, rest) == Some((seq![a] + p.0, p.1)));
                            assert(attempts@ + (seq![a] + p.0) =~= (attempts@ + seq![a]) + p.0);
                            assert(attempts@.push(a) =~= attempts@ + seq![a]);
                        },
                    }
                }
                attempts.push(a);
                cur = end;
                k = k + 1;
            },
        }
    }
    proof {
        assert(parse_attempts(0u64, b@.skip(cur as int)) == Some(
            (Seq::<ExecutionAttempt>::empty(), b@.skip(cur as int)),
        ));
        assert(attempts@ + Seq::<ExecutionAttempt>::empty() =~= attempts@);
    }
    Some((attempts, cur))
}

/// Decode a persisted cache entry.
///
/// Returns `Ok` exactly when the bytes are a complete, well-formed entry of
/// the current format version; the error otherwise names what was wrong,
/// as [`decode_spec`] states.
/// Read the exit code, output digest and attempt count at `pos`.
#[verifier::rlimit(100)]
#[verifier::spinoff_prover]
fn read_tail(b: &Vec<u8>, pos: usize) -> (r: Option<(i32, Digest, u64, usize)>)
    requires
        pos <= b@.len(),
    ensures
        match r {
            Some(p) => {
                &&& pos <= p.3 <= b@.len()
                &&& p.1.wf()
                &&& parse_tail(b@.skip(pos as int)) == Some(
                    ((p.0, p.1@, p.2), b@.skip(p.3 as int)),
                )
            },
            None => parse_tail(b@.skip(pos as int)) is None,
        },
{
    let len = b.len();
    if len - pos < 8 {
        proof {
            assert(b@.skip(pos as int).len() < 8);
        }
        return None;
    }
    let code_raw = read_u64_le(b, pos);
    proof {
        crate::wire::lemma_le_val_take(b@.skip(pos as int));
        assert(b@.skip(pos as int).skip(8) =~= b@.skip(pos as int + 8));
    }
    if code_raw > 0xffff_ffff {
        return None;
    }
    let exit_code = exit_unoffset_exec(code_raw);
    let od = match read_digest(b, pos + 8) {
        None => {
            return None;
        },
        Some(p) => p,
    };
    let pos4 = od.1;
    if len - pos4 < 8 {
        proof {
            assert(b@.skip(pos4 as int).len() < 8);
        }
        return None;
    }
    let count = read_u64_le(b, pos4);
    proof {
        crate::wire::lemma_le_val_take(b@.skip(pos4 as int));
        assert(b@.skip(pos4 as int).skip(8) =~= b@.skip(pos4 as int + 8));
    }
    Some((exit_code, od.0, count, pos4 + 8))
}

#[verifier::rlimit(100)]
#[verifier::spinoff_prover]
fn read_prefix(bytes: &Vec<u8>) -> (r: Result<
    (StreamData, StreamData, i32, Digest, u64, usize),
    DecodeError,
>)
    ensures
        match r {
            Ok(p) => {
                &&& p.5 <= bytes@.len()
                &&& p.0@.wf()
                &&& p.1@.wf()
                &&& p.3@.wf()
                &&& parse_prefix(bytes@) == Ok::<_, DecodeError>(
                    ((p.0@, p.1@, p.2, p.3@, p.4), bytes@.skip(p.5 as int)),
                )
            },
            Err(e) => parse_prefix(bytes@) == Err::<
                ((StreamDataView, StreamDataView, i32, DigestView, u64), Seq<u8>),
                DecodeError,
            >(e),
        },
{
    let len = bytes.len();
    if len < 1 {
        return Err(DecodeError::Malformed);
    }
    if bytes[0] != FORMAT_VERSION {
        return Err(DecodeError::UnsupportedVersion);
    }
    let stdout = match read_stream(bytes, 1) {
        None => {
            return Err(DecodeError::Malformed);
        },
        Some(p) => p,
    };
    let stderr = match read_stream(bytes, stdout.1) {
        None => {
            return Err(DecodeError::Malformed);
        },
        Some(p) => p,
    };
    let tail = match read_tail(bytes, stderr.1) {
        None => {
            return Err(DecodeError::Malformed);
        },
        Some(p) => p,
    };
    Ok((stdout.0, stderr.0, tail.0, tail.1, tail.2, tail.3))
}

#[verifier::rlimit(50)]
pub fn decode(bytes: &Vec<u8>) -> (r: Result<ExecutionResult, DecodeError>)
    ensures
        match r {
            Ok(v) => decode_spec(bytes@) == Ok::<ExecutionResultView, DecodeError>(v@) && v.wf(),
            Err(e) => decode_spec(bytes@) == Err::<ExecutionResultView, DecodeError>(e),
        },
{
    let fields = match read_prefix(bytes) {
        Err(e) => {
            return Err(e);
        },
        Ok(p) => p,
    };
    let (attempts, pos) = match read_attempts(bytes, fields.5, fields.4) {
        None => {
            return Err(DecodeError::Malformed);
        },
        Some(p) => p,
    };
    if pos != bytes.len() {
        return Err(DecodeError::TrailingData);
    }
    proof {
        assert(bytes@.skip(pos as int).len() == 0);
    }
    let res = ExecutionResult {
        stdout: fields.0,
        stderr: fields.1,
        exit_code: fields.2,
        output_digest: fields.3,
        attempts,
    };
    proof {
        vstd::std_specs::vec::axiom_spec_len(&res.attempts);
    }
    Ok(res)
}

} // verus!
