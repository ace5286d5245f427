use apertium_stats::store::ResultStore;
use apertium_stats::worker::{LaunchError, Worker};

fn catalog() -> Vec<String> {
    vec!["size".to_owned(), "coverage".to_owned(), "quality".to_owned()]
}

#[test]
fn a_fresh_launch_claims_the_whole_catalog() {
    let mut worker = Worker::new(catalog());
    let (new_kinds, in_progress) = worker.launch_tasks("apertium-en-es", None).unwrap();
    assert_eq!(new_kinds, catalog());
    assert!(in_progress.is_empty());
}

#[test]
fn a_second_launch_sees_everything_in_progress() {
    let mut worker = Worker::new(catalog());
    worker.launch_tasks("apertium-en-es", None).unwrap();
    let (new_kinds, in_progress) = worker.launch_tasks("apertium-en-es", None).unwrap();
    assert!(new_kinds.is_empty());
    assert_eq!(in_progress, catalog());
}

#[test]
fn success_persists_the_entry_and_unregisters_the_kind() {
    let mut worker = Worker::new(catalog());
    let mut store = ResultStore::new();
    worker.launch_tasks("apertium-en-es", None).unwrap();
    worker.complete_success(&mut store, "apertium-en-es", "size", 42, "{\"bytes\":7}".to_owned());
    let remaining = worker.get_tasks_in_progress("apertium-en-es").unwrap();
    assert_eq!(remaining, vec!["coverage".to_owned(), "quality".to_owned()]);
    let found = store.find_all_by_kind_grouped("apertium-en-es");
    assert_eq!(found.len(), 1);
    assert_eq!(found[0].kind, "size");
    assert_eq!(found[0].created, 42);
    assert_eq!(found[0].value, "{\"bytes\":7}");
}

#[test]
fn all_completions_leave_the_package_idle() {
    let mut worker = Worker::new(catalog());
    let mut store = ResultStore::new();
    worker.launch_tasks("apertium-en-es", None).unwrap();
    worker.complete_success(&mut store, "apertium-en-es", "size", 1, "s".to_owned());
    worker.complete_success(&mut store, "apertium-en-es", "coverage", 2, "c".to_owned());
    worker.complete_success(&mut store, "apertium-en-es", "quality", 3, "q".to_owned());
    assert!(worker.get_tasks_in_progress("apertium-en-es").is_none());
    assert_eq!(store.find_all_by_kind_grouped("apertium-en-es").len(), 3);
}

#[test]
fn failure_unregisters_without_writing_and_allows_a_retry() {
    let mut worker = Worker::new(catalog());
    let store = ResultStore::new();
    worker.launch_tasks("apertium-en-es", None).unwrap();
    worker.complete_failure("apertium-en-es", "coverage");
    let remaining = worker.get_tasks_in_progress("apertium-en-es").unwrap();
    assert_eq!(remaining, vec!["size".to_owned(), "quality".to_owned()]);
    assert!(store.find_all_by_kind_grouped("apertium-en-es").is_empty());
    let (new_kinds, in_progress) = worker
        .launch_tasks("apertium-en-es", Some("coverage"))
        .unwrap();
    assert_eq!(new_kinds, vec!["coverage".to_owned()]);
    assert!(in_progress.is_empty());
}

#[test]
fn a_specific_launch_considers_only_that_kind() {
    let mut worker = Worker::new(catalog());
    let (new_kinds, in_progress) = worker
        .launch_tasks("apertium-en-es", Some("size"))
        .unwrap();
    assert_eq!(new_kinds, vec!["size".to_owned()]);
    assert!(in_progress.is_empty());
    let (new_kinds, in_progress) = worker
        .launch_tasks("apertium-en-es", Some("size"))
        .unwrap();
    assert!(new_kinds.is_empty());
    assert_eq!(in_progress, vec!["size".to_owned()]);
}

#[test]
fn launching_over_an_empty_catalog_fails() {
    let mut worker = Worker::new(Vec::new());
    let err = worker.launch_tasks("apertium-en-es", None).unwrap_err();
    assert_eq!(err, LaunchError::EmptyCatalog);
}

#[test]
fn packages_do_not_interfere() {
    let mut worker = Worker::new(catalog());
    worker.launch_tasks("apertium-en-es", None).unwrap();
    let (new_kinds, in_progress) = worker.launch_tasks("apertium-fr-es", None).unwrap();
    assert_eq!(new_kinds, catalog());
    assert!(in_progress.is_empty());
    worker.complete_failure("apertium-fr-es", "size");
    assert_eq!(
        worker.get_tasks_in_progress("apertium-en-es").unwrap(),
        catalog()
    );
}
