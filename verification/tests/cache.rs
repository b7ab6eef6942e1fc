use process_cache::canon::{fingerprint, ExecutionRequest, MalformedRequestError};
use process_cache::codec::{decode, encode, DecodeError, FORMAT_VERSION};
use process_cache::digest::Digest;
use process_cache::result::{ExecutionAttempt, ExecutionResult, StreamData};
use process_cache::runner::{CachingRunner, Executor, RunError, ScriptedExecutor};
use process_cache::store::{MemStore, Store, StoreError};
use sha2::Digest as _;

fn digest32(fill: u8, size: u64) -> Digest {
    Digest {
        fingerprint: vec![fill; 32],
        size,
    }
}

fn request(argv: Vec<&str>, env: Vec<(&str, &str)>) -> ExecutionRequest {
    ExecutionRequest {
        argv: argv.into_iter().map(|s| s.to_string()).collect(),
        env: env
            .into_iter()
            .map(|(k, v)| (k.to_string(), v.to_string()))
            .collect(),
        platform_properties: vec![],
        input_digest: digest32(0, 0),
        output_files: vec![],
    }
}

fn sample_result() -> ExecutionResult {
    ExecutionResult {
        stdout: StreamData::Inline(b"hi\n".to_vec()),
        stderr: StreamData::Inline(vec![]),
        exit_code: 0,
        output_digest: digest32(7, 42),
        attempts: vec![ExecutionAttempt {
            duration_ms: 3,
            remote: false,
        }],
    }
}

fn le64(x: u64) -> Vec<u8> {
    x.to_le_bytes().to_vec()
}

fn blob(data: &[u8]) -> Vec<u8> {
    let mut out = le64(data.len() as u64);
    out.extend_from_slice(data);
    out
}

#[test]
fn fingerprint_ignores_env_order() {
    let r1 = request(vec!["echo", "hi"], vec![("B", "2"), ("A", "1")]);
    let r2 = request(vec!["echo", "hi"], vec![("A", "1"), ("B", "2")]);
    assert_eq!(fingerprint(&r1).unwrap(), fingerprint(&r2).unwrap());
}

#[test]
fn fingerprint_ignores_platform_order() {
    let mut r1 = request(vec!["a"], vec![]);
    r1.platform_properties = vec![
        ("os".to_string(), "linux".to_string()),
        ("arch".to_string(), "x86".to_string()),
    ];
    let mut r2 = request(vec!["a"], vec![]);
    r2.platform_properties = vec![
        ("arch".to_string(), "x86".to_string()),
        ("os".to_string(), "linux".to_string()),
    ];
    assert_eq!(fingerprint(&r1).unwrap(), fingerprint(&r2).unwrap());
}

#[test]
fn fingerprint_depends_on_content() {
    let r1 = request(vec!["echo", "hi"], vec![]);
    let r2 = request(vec!["echo", "ho"], vec![]);
    let r3 = request(vec!["echo", "hi"], vec![("A", "1")]);
    let d1 = fingerprint(&r1).unwrap();
    assert_ne!(d1, fingerprint(&r2).unwrap());
    assert_ne!(d1, fingerprint(&r3).unwrap());
}

#[test]
fn fingerprint_matches_reference_hash() {
    let req = request(vec!["echo", "hi"], vec![("A", "1")]);
    let mut canonical: Vec<u8> = vec![];
    canonical.extend_from_slice(&le64(2));
    canonical.extend_from_slice(&blob(b"echo"));
    canonical.extend_from_slice(&blob(b"hi"));
    canonical.extend_from_slice(&le64(1));
    canonical.extend_from_slice(&blob(b"A"));
    canonical.extend_from_slice(&blob(b"1"));
    canonical.extend_from_slice(&le64(0));
    canonical.extend_from_slice(&blob(&[0u8; 32]));
    canonical.extend_from_slice(&le64(0));
    canonical.extend_from_slice(&le64(0));
    let expected = sha2::Sha256::digest(&canonical);
    let d = fingerprint(&req).unwrap();
    assert_eq!(d.fingerprint, expected.to_vec());
    assert_eq!(d.size, canonical.len() as u64);
}

#[test]
fn fingerprint_sorts_env_by_key_bytes() {
    // keys deliberately unsorted; the canonical form lists "A" before "B"
    let req = request(vec![], vec![("B", "2"), ("A", "1")]);
    let mut canonical: Vec<u8> = vec![];
    canonical.extend_from_slice(&le64(0));
    canonical.extend_from_slice(&le64(2));
    canonical.extend_from_slice(&blob(b"A"));
    canonical.extend_from_slice(&blob(b"1"));
    canonical.extend_from_slice(&blob(b"B"));
    canonical.extend_from_slice(&blob(b"2"));
    canonical.extend_from_slice(&le64(0));
    canonical.extend_from_slice(&blob(&[0u8; 32]));
    canonical.extend_from_slice(&le64(0));
    canonical.extend_from_slice(&le64(0));
    let expected = sha2::Sha256::digest(&canonical);
    assert_eq!(fingerprint(&req).unwrap().fingerprint, expected.to_vec());
}

#[test]
fn fingerprint_rejects_bad_input_digest() {
    let mut req = request(vec!["a"], vec![]);
    req.input_digest = Digest {
        fingerprint: vec![0u8; 16],
        size: 0,
    };
    assert_eq!(
        fingerprint(&req),
        Err(MalformedRequestError::InvalidInputDigest)
    );
}

#[test]
fn fingerprint_rejects_duplicate_env_key() {
    let req = request(vec!["a"], vec![("A", "1"), ("A", "2")]);
    assert_eq!(fingerprint(&req), Err(MalformedRequestError::DuplicateEnvKey));
}

#[test]
fn fingerprint_rejects_duplicate_platform_key() {
    let mut req = request(vec!["a"], vec![]);
    req.platform_properties = vec![
        ("os".to_string(), "linux".to_string()),
        ("os".to_string(), "mac".to_string()),
    ];
    assert_eq!(
        fingerprint(&req),
        Err(MalformedRequestError::DuplicatePlatformKey)
    );
}

#[test]
fn codec_round_trips_rich_result() {
    let v = ExecutionResult {
        stdout: StreamData::Inline(b"out".to_vec()),
        stderr: StreamData::Stored(digest32(9, 100000)),
        exit_code: -137,
        output_digest: digest32(1, 5),
        attempts: vec![
            ExecutionAttempt {
                duration_ms: 0,
                remote: false,
            },
            ExecutionAttempt {
                duration_ms: u64::MAX,
                remote: true,
            },
        ],
    };
    assert_eq!(decode(&encode(&v)).unwrap(), v);
}

#[test]
fn codec_round_trips_empty_result() {
    let v = ExecutionResult {
        stdout: StreamData::Inline(vec![]),
        stderr: StreamData::Inline(vec![]),
        exit_code: 0,
        output_digest: digest32(0, 0),
        attempts: vec![],
    };
    assert_eq!(decode(&encode(&v)).unwrap(), v);
}

#[test]
fn decode_rejects_empty_bytes() {
    assert_eq!(decode(&vec![]), Err(DecodeError::Malformed));
}

#[test]
fn decode_rejects_unknown_version() {
    let mut bytes = encode(&sample_result());
    bytes[0] = FORMAT_VERSION.wrapping_add(1);
    assert_eq!(decode(&bytes), Err(DecodeError::UnsupportedVersion));
}

#[test]
fn decode_rejects_truncated_bytes() {
    let mut bytes = encode(&sample_result());
    bytes.pop();
    assert_eq!(decode(&bytes), Err(DecodeError::Malformed));
}

#[test]
fn decode_rejects_trailing_bytes() {
    let mut bytes = encode(&sample_result());
    bytes.push(0);
    assert_eq!(decode(&bytes), Err(DecodeError::TrailingData));
}

#[test]
fn decode_rejects_bad_stream_tag() {
    let mut bytes = encode(&sample_result());
    bytes[1] = 7;
    assert_eq!(decode(&bytes), Err(DecodeError::Malformed));
}

#[test]
fn decode_rejects_bad_attempt_flag() {
    let mut bytes = encode(&sample_result());
    let last = bytes.len() - 1;
    bytes[last] = 9;
    assert_eq!(decode(&bytes), Err(DecodeError::Malformed));
}

#[test]
fn mem_store_round_trips_blobs() {
    let mut store = MemStore::new();
    let key = digest32(3, 9);
    assert_eq!(store.get(&key), None);
    store.put(&key, vec![1, 2, 3]).unwrap();
    assert_eq!(store.get(&key), Some(vec![1, 2, 3]));
    store.put(&key, vec![4]).unwrap();
    assert_eq!(store.get(&key), Some(vec![4]));
}

#[test]
fn read_only_store_rejects_writes() {
    let mut store = MemStore::new_read_only();
    let key = digest32(3, 9);
    assert_eq!(store.put(&key, vec![1]), Err(StoreError));
    assert_eq!(store.get(&key), None);
}

#[test]
fn first_call_misses_second_call_hits() {
    // request {cmd: "echo hi"}: miss, execute, store; then hit without executing
    let req = request(vec!["echo", "hi"], vec![]);
    let expected = sample_result();
    let exec = ScriptedExecutor::new(vec![Ok(expected.clone())]);
    let mut runner = CachingRunner::new(exec, MemStore::new());
    let first = runner.run(&req).unwrap();
    assert_eq!(first, expected);
    assert_eq!(runner.executions, 1);
    let second = runner.run(&req).unwrap();
    assert_eq!(second, first);
    assert_eq!(runner.executions, 1);
    assert_eq!(runner.executor.call_count(), 1);
    assert_eq!(runner.store_write_failures, 0);
}

#[test]
fn executor_failure_is_not_cached() {
    let req = request(vec!["fails"], vec![]);
    let exec = ScriptedExecutor::new(vec![
        Err("infrastructure down".to_string()),
        Ok(sample_result()),
    ]);
    let mut runner = CachingRunner::new(exec, MemStore::new());
    let first = runner.run(&req);
    assert_eq!(
        first,
        Err(RunError::Executor("infrastructure down".to_string()))
    );
    assert_eq!(runner.executions, 1);
    // the failure was not cached: the next call executes again
    let second = runner.run(&req).unwrap();
    assert_eq!(second, sample_result());
    assert_eq!(runner.executions, 2);
}

#[test]
fn nonzero_exit_code_is_cached() {
    let req = request(vec!["false"], vec![]);
    let mut failed = sample_result();
    failed.exit_code = 1;
    let exec = ScriptedExecutor::new(vec![Ok(failed.clone())]);
    let mut runner = CachingRunner::new(exec, MemStore::new());
    assert_eq!(runner.run(&req).unwrap(), failed);
    assert_eq!(runner.run(&req).unwrap(), failed);
    assert_eq!(runner.executions, 1);
}

#[test]
fn corrupt_entry_is_treated_as_miss_and_repaired() {
    let req = request(vec!["echo", "hi"], vec![]);
    let key = fingerprint(&req).unwrap();
    let mut store = MemStore::new();
    store.put(&key, vec![0xFF, 1, 2]).unwrap();
    let exec = ScriptedExecutor::new(vec![Ok(sample_result())]);
    let mut runner = CachingRunner::new(exec, store);
    let first = runner.run(&req).unwrap();
    assert_eq!(first, sample_result());
    assert_eq!(runner.executions, 1);
    // the entry was repaired: this call hits
    let second = runner.run(&req).unwrap();
    assert_eq!(second, first);
    assert_eq!(runner.executions, 1);
}

#[test]
fn incompatible_version_entry_is_treated_as_miss() {
    let req = request(vec!["echo", "hi"], vec![]);
    let key = fingerprint(&req).unwrap();
    let mut bytes = encode(&sample_result());
    bytes[0] = FORMAT_VERSION.wrapping_add(1);
    let mut store = MemStore::new();
    store.put(&key, bytes).unwrap();
    let exec = ScriptedExecutor::new(vec![Ok(sample_result())]);
    let mut runner = CachingRunner::new(exec, store);
    assert_eq!(runner.run(&req).unwrap(), sample_result());
    assert_eq!(runner.executions, 1);
}

#[test]
fn store_write_failure_is_nonfatal() {
    let req = request(vec!["echo", "hi"], vec![]);
    let exec = ScriptedExecutor::new(vec![Ok(sample_result()), Ok(sample_result())]);
    let mut runner = CachingRunner::new(exec, MemStore::new_read_only());
    let first = runner.run(&req).unwrap();
    assert_eq!(first, sample_result());
    assert_eq!(runner.store_write_failures, 1);
    // nothing could be cached, so the next call executes again
    let second = runner.run(&req).unwrap();
    assert_eq!(second, first);
    assert_eq!(runner.executions, 2);
    assert_eq!(runner.store_write_failures, 2);
}

#[test]
fn malformed_request_fails_without_executing() {
    let req = request(vec!["a"], vec![("A", "1"), ("A", "2")]);
    let exec = ScriptedExecutor::new(vec![Ok(sample_result())]);
    let mut runner = CachingRunner::new(exec, MemStore::new());
    assert_eq!(
        runner.run(&req),
        Err(RunError::Malformed(MalformedRequestError::DuplicateEnvKey))
    );
    assert_eq!(runner.executions, 0);
    assert_eq!(runner.executor.call_count(), 0);
}

#[test]
fn caching_runner_is_a_drop_in_executor() {
    // the cache substitutes for direct execution, so layers compose
    let req = request(vec!["echo", "hi"], vec![]);
    let inner = CachingRunner::new(
        ScriptedExecutor::new(vec![Ok(sample_result())]),
        MemStore::new(),
    );
    let mut outer = CachingRunner::new(inner, MemStore::new());
    let first = outer.run(&req).unwrap();
    assert_eq!(first, sample_result());
    assert_eq!(outer.run(&req).unwrap(), first);
    // the outer layer answered the second call from its own cache
    assert_eq!(outer.executions, 1);
    assert_eq!(outer.executor.executions, 1);
}

#[test]
fn executor_view_flattens_malformed_errors() {
    let req = request(vec!["a"], vec![("A", "1"), ("A", "2")]);
    let mut runner = CachingRunner::new(ScriptedExecutor::new(vec![]), MemStore::new());
    let r = Executor::run(&mut runner, &req);
    assert_eq!(
        r,
        Err("malformed request: duplicate environment key".to_string())
    );
}
