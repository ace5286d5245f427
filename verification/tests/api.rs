use apertium_stats::api::{get_stats, StatsResponse};
use apertium_stats::store::ResultStore;
use apertium_stats::worker::Worker;

fn catalog() -> Vec<String> {
    vec!["size".to_owned(), "coverage".to_owned(), "quality".to_owned()]
}

#[test]
fn an_invalid_name_is_rejected_with_its_canonical_form() {
    let mut worker = Worker::new(catalog());
    let store = ResultStore::new();
    match get_stats(&mut worker, &store, "not a package") {
        StatsResponse::InvalidName { name } => assert_eq!(name, "apertium-not a package"),
        _ => panic!("expected the name to be rejected"),
    }
    assert!(worker.get_tasks_in_progress("apertium-not a package").is_none());
}

#[test]
fn an_idle_uncached_package_gets_launched() {
    let mut worker = Worker::new(catalog());
    let store = ResultStore::new();
    match get_stats(&mut worker, &store, "en-es") {
        StatsResponse::Launched { name, new_kinds, in_progress } => {
            assert_eq!(name, "apertium-en-es");
            assert_eq!(new_kinds, catalog());
            assert!(in_progress.is_empty());
        },
        _ => panic!("expected a launch"),
    }
    assert_eq!(
        worker.get_tasks_in_progress("apertium-en-es").unwrap(),
        catalog()
    );
}

#[test]
fn a_busy_package_reports_its_progress() {
    let mut worker = Worker::new(catalog());
    let store = ResultStore::new();
    get_stats(&mut worker, &store, "en-es");
    match get_stats(&mut worker, &store, "en-es") {
        StatsResponse::InProgress { name, kinds } => {
            assert_eq!(name, "apertium-en-es");
            assert_eq!(kinds, catalog());
        },
        _ => panic!("expected progress to be reported"),
    }
}

#[test]
fn a_cached_package_returns_its_entries() {
    let mut worker = Worker::new(catalog());
    let mut store = ResultStore::new();
    get_stats(&mut worker, &store, "en-es");
    worker.complete_success(&mut store, "apertium-en-es", "size", 7, "payload".to_owned());
    match get_stats(&mut worker, &store, "en-es") {
        StatsResponse::Stats { name, entries } => {
            assert_eq!(name, "apertium-en-es");
            assert_eq!(entries.len(), 1);
            assert_eq!(entries[0].kind, "size");
            assert_eq!(entries[0].value, "payload");
        },
        _ => panic!("expected cached statistics"),
    }
}

#[test]
fn an_empty_catalog_makes_the_launch_fail() {
    let mut worker = Worker::new(Vec::new());
    let store = ResultStore::new();
    match get_stats(&mut worker, &store, "en-es") {
        StatsResponse::LaunchFailed { name } => assert_eq!(name, "apertium-en-es"),
        _ => panic!("expected the launch to fail"),
    }
}

#[test]
fn a_raw_name_is_canonicalized_before_coordination() {
    let mut worker = Worker::new(catalog());
    let store = ResultStore::new();
    get_stats(&mut worker, &store, "en-es");
    match get_stats(&mut worker, &store, "apertium-en-es") {
        StatsResponse::InProgress { kinds, .. } => assert_eq!(kinds, catalog()),
        _ => panic!("the raw and canonical names should hit the same package"),
    }
}
