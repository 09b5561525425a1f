use perf_collector::benchmark::{accept_entry, contains_substring, register_benchmarks, DirEntry};
use perf_collector::record::{BenchmarkResult, MeasurementRecord, Outcome};
use perf_collector::revision::{find_by_id, Revision};
use perf_collector::selector::{select, DENSE_LIMIT, SAMPLE_STEP};
use perf_collector::store::ResultStore;

const TRIPLE: &str = "x86_64-unknown-linux-gnu";

fn rev(id: &str) -> Revision {
    Revision { id: id.to_string(), timestamp: 0, summary: String::new() }
}

fn revs(n: usize) -> Vec<Revision> {
    (0..n).map(|i| rev(&format!("r{:03}", i))).collect()
}

#[test]
fn selection_constants_match_policy() {
    assert_eq!(DENSE_LIMIT, 5);
    assert_eq!(SAMPLE_STEP, 30);
}

#[test]
fn dense_backlog_is_selected_whole() {
    let all = revs(10);
    let missing = revs(5);
    let sel = select(&all, &missing);
    assert_eq!(sel.len(), 5);
    for (s, m) in sel.iter().zip(missing.iter()) {
        assert_eq!(s.id, m.id);
    }
}

#[test]
fn six_missing_are_sampled_sparsely() {
    let all = revs(6);
    let missing = revs(6);
    let sel = select(&all, &missing);
    let ids: Vec<&str> = sel.iter().map(|r| r.id.as_str()).collect();
    assert_eq!(ids, vec!["r000"]);
}

#[test]
fn sampling_picks_every_thirtieth() {
    let all = revs(61);
    let missing = revs(61);
    let sel = select(&all, &missing);
    let ids: Vec<&str> = sel.iter().map(|r| r.id.as_str()).collect();
    assert_eq!(ids, vec!["r000", "r030", "r060"]);
}

#[test]
fn selection_is_deterministic() {
    let all = revs(40);
    let missing = revs(40);
    let first = select(&all, &missing);
    let second = select(&all, &missing);
    let a: Vec<&str> = first.iter().map(|r| r.id.as_str()).collect();
    let b: Vec<&str> = second.iter().map(|r| r.id.as_str()).collect();
    assert_eq!(a, b);
}

#[test]
fn empty_missing_selects_nothing() {
    let all = revs(3);
    let sel = select(&all, &Vec::new());
    assert!(sel.is_empty());
}

#[test]
fn find_by_id_returns_first_match() {
    let list = vec![rev("a"), rev("b"), rev("c")];
    assert_eq!(find_by_id(&list, &"b".to_string()), Some(1));
    assert_eq!(find_by_id(&list, &"missing".to_string()), None);
}

#[test]
fn overwriting_a_failure_keeps_one_record() {
    let mut store = ResultStore::new(TRIPLE.to_string());
    let c1 = rev("c1");
    store.record_failure(&c1, "first try".to_string());
    assert_eq!(store.next_retry(), Some("c1".to_string()));
    store.record_success(MeasurementRecord {
        revision_id: "c1".to_string(),
        triple: TRIPLE.to_string(),
        outcome: Outcome::Success(vec![BenchmarkResult {
            name: "b".to_string(),
            metrics: "m".to_string(),
        }]),
    });
    assert_eq!(store.next_retry(), None);
    assert_eq!(store.records.len(), 1);
    assert!(store.has_record(&"c1".to_string()));
}

#[test]
fn earliest_recorded_failure_is_retried_first() {
    let mut store = ResultStore::new(TRIPLE.to_string());
    store.record_failure(&rev("c4"), "x".to_string());
    store.record_failure(&rev("c2"), "y".to_string());
    assert_eq!(store.next_retry(), Some("c4".to_string()));
}

#[test]
fn find_missing_keeps_order_and_skips_recorded() {
    let mut store = ResultStore::new(TRIPLE.to_string());
    store.record_failure(&rev("b"), "boom".to_string());
    let all = vec![rev("a"), rev("b"), rev("c")];
    let missing = store.find_missing(&all);
    let ids: Vec<&str> = missing.iter().map(|r| r.id.as_str()).collect();
    // A Failure record still counts as recorded: failed revisions come back
    // through the retry queue, not through the sweep.
    assert_eq!(ids, vec!["a", "c"]);
}

#[test]
fn hydrating_replaces_by_revision() {
    let mut store = ResultStore::new(TRIPLE.to_string());
    store.load_record(MeasurementRecord {
        revision_id: "c1".to_string(),
        triple: TRIPLE.to_string(),
        outcome: Outcome::Failure("old".to_string()),
    });
    store.load_record(MeasurementRecord {
        revision_id: "c1".to_string(),
        triple: TRIPLE.to_string(),
        outcome: Outcome::Failure("new".to_string()),
    });
    assert_eq!(store.records.len(), 1);
    match &store.records[0].outcome {
        Outcome::Failure(e) => assert_eq!(e, "new"),
        Outcome::Success(_) => panic!("record was replaced by a failure"),
    }
}

#[test]
fn discovery_filters_and_excludes() {
    let entries = vec![
        DirEntry { name: ".git".to_string(), location: "d/.git".to_string(), is_dir: true },
        DirEntry { name: "scripts".to_string(), location: "d/scripts".to_string(), is_dir: true },
        DirEntry { name: "notes.txt".to_string(), location: "d/notes.txt".to_string(), is_dir: false },
        DirEntry { name: "helloworld".to_string(), location: "d/helloworld".to_string(), is_dir: true },
        DirEntry { name: "regex-bench".to_string(), location: "d/regex-bench".to_string(), is_dir: true },
    ];
    let all = register_benchmarks(&entries, &None);
    let names: Vec<&str> = all.iter().map(|b| b.name.as_str()).collect();
    assert_eq!(names, vec!["helloworld", "regex-bench"]);

    let filtered = register_benchmarks(&entries, &Some("regex".to_string()));
    let names: Vec<&str> = filtered.iter().map(|b| b.name.as_str()).collect();
    assert_eq!(names, vec!["regex-bench"]);
}

#[test]
fn acceptance_policy_on_single_entries() {
    assert!(accept_entry(&"hello".to_string(), true, &None));
    assert!(!accept_entry(&"hello".to_string(), false, &None));
    assert!(!accept_entry(&".git".to_string(), true, &None));
    assert!(!accept_entry(&"scripts".to_string(), true, &None));
    assert!(accept_entry(&"hello".to_string(), true, &Some("ell".to_string())));
    assert!(!accept_entry(&"hello".to_string(), true, &Some("world".to_string())));
}

#[test]
fn substring_search_is_exact() {
    assert!(contains_substring(&"hello world".to_string(), &"lo wo".to_string()));
    assert!(contains_substring(&"hello".to_string(), &"".to_string()));
    assert!(contains_substring(&"hello".to_string(), &"hello".to_string()));
    assert!(!contains_substring(&"hello".to_string(), &"hellos".to_string()));
    assert!(!contains_substring(&"abc".to_string(), &"ac".to_string()));
}
