use perf_collector::codec::{encode_record, parse_record};
use perf_collector::record::{BenchmarkResult, MeasurementRecord, Outcome};

fn assert_same(a: &MeasurementRecord, b: &MeasurementRecord) {
    assert_eq!(a.revision_id, b.revision_id);
    assert_eq!(a.triple, b.triple);
    match (&a.outcome, &b.outcome) {
        (Outcome::Success(x), Outcome::Success(y)) => {
            assert_eq!(x.len(), y.len());
            for (bx, by) in x.iter().zip(y.iter()) {
                assert_eq!(bx.name, by.name);
                assert_eq!(bx.metrics, by.metrics);
            }
        }
        (Outcome::Failure(x), Outcome::Failure(y)) => assert_eq!(x, y),
        _ => panic!("success and failure records must never be confused"),
    }
}

#[test]
fn round_trip_success_record() {
    let rec = MeasurementRecord {
        revision_id: "fe81a2a4a6e1ce4f6bcbee".to_string(),
        triple: "x86_64-unknown-linux-gnu".to_string(),
        outcome: Outcome::Success(vec![
            BenchmarkResult {
                name: "helloworld".to_string(),
                metrics: "cpu-clock: 12.5 : with colons\nand a newline".to_string(),
            },
            BenchmarkResult { name: "regex".to_string(), metrics: String::new() },
        ]),
    };
    let text = encode_record(&rec);
    let back = parse_record(&text).expect("an encoded record parses");
    assert_same(&rec, &back);
}

#[test]
fn round_trip_failure_record() {
    let rec = MeasurementRecord {
        revision_id: "c2".to_string(),
        triple: "x86_64-unknown-linux-gnu".to_string(),
        outcome: Outcome::Failure("installer: 404 :: not found\ttab".to_string()),
    };
    let text = encode_record(&rec);
    let back = parse_record(&text).expect("an encoded record parses");
    assert_same(&rec, &back);
}

#[test]
fn round_trip_empty_benchmark_set() {
    let rec = MeasurementRecord {
        revision_id: "c5".to_string(),
        triple: "aarch64-apple-darwin".to_string(),
        outcome: Outcome::Success(Vec::new()),
    };
    let text = encode_record(&rec);
    let back = parse_record(&text).expect("an encoded record parses");
    assert_same(&rec, &back);
}

#[test]
fn round_trip_non_ascii_payload() {
    let rec = MeasurementRecord {
        revision_id: "päivitys-42".to_string(),
        triple: "x86_64-unknown-linux-gnu".to_string(),
        outcome: Outcome::Failure("überraschung: 時間切れ".to_string()),
    };
    let text = encode_record(&rec);
    let back = parse_record(&text).expect("an encoded record parses");
    assert_same(&rec, &back);
}

#[test]
fn exact_encoding_of_failure_record() {
    let rec = MeasurementRecord {
        revision_id: "c2".to_string(),
        triple: "t".to_string(),
        outcome: Outcome::Failure("oops".to_string()),
    };
    assert_eq!(encode_record(&rec), "F2:c21:t4:oops");
}

#[test]
fn exact_encoding_of_success_record() {
    let rec = MeasurementRecord {
        revision_id: "c1".to_string(),
        triple: "t".to_string(),
        outcome: Outcome::Success(vec![BenchmarkResult {
            name: "hello".to_string(),
            metrics: "1.5".to_string(),
        }]),
    };
    assert_eq!(encode_record(&rec), "S2:c11:t1:5:hello3:1.5");
}

#[test]
fn round_trip_payload_that_mimics_the_framing() {
    // A payload that looks exactly like a length-prefixed field must not
    // confuse the framing.
    let rec = MeasurementRecord {
        revision_id: "3:abc".to_string(),
        triple: "1:t".to_string(),
        outcome: Outcome::Success(vec![
            BenchmarkResult { name: String::new(), metrics: "5:hello".to_string() },
            BenchmarkResult { name: "0:".to_string(), metrics: "S2:c1".to_string() },
        ]),
    };
    let text = encode_record(&rec);
    let back = parse_record(&text).expect("an encoded record parses");
    assert_same(&rec, &back);
}

#[test]
fn parse_rejects_wrong_result_count() {
    // One pair announced, none present; and none announced, one present.
    assert!(parse_record("S2:c11:t1:").is_none());
    assert!(parse_record("S2:c11:t0:5:hello3:1.5").is_none());
}

#[test]
fn parse_rejects_garbage() {
    assert!(parse_record("").is_none());
    assert!(parse_record("X2:c11:t").is_none());
    assert!(parse_record("F2:c21:t4:oo").is_none(), "truncated field");
    assert!(parse_record("F2:c21:t4:oopsmore").is_none(), "trailing characters");
    assert!(parse_record("F02:c21:t4:oops").is_none(), "non-canonical length");
    assert!(parse_record("Fc2").is_none());
    assert!(parse_record("S2:c11:t9999999999999999999999:x").is_none(), "absurd count");
}
