//! Coalesced file changes.
use gostly::watch::changes_content;
use gostly::watch::Debounce;
use gostly::watch::FileChange;

#[test]
fn only_changes_of_content_count() {
    assert!(changes_content(FileChange::Created));
    assert!(changes_content(FileChange::Modified));
    assert!(changes_content(FileChange::Removed));
    assert!(!changes_content(FileChange::Other));
}

#[test]
fn burst_is_one_batch() {
    let mut d = Debounce::new();
    assert_eq!(d.wait_ms(0), None);
    d.changed("a", 1000);
    d.changed("b", 1050);
    d.changed("a", 1199);
    assert_eq!(d.wait_ms(1100), Some(100));
    assert!(d.take_due(1199).is_empty());
    assert_eq!(d.take_due(1200), vec!["a".to_string(), "b".to_string()]);
    assert_eq!(d.wait_ms(1200), None);
    assert!(d.take_due(5000).is_empty());
}

#[test]
fn next_burst_has_its_own_time() {
    let mut d = Debounce::new();
    d.changed("a", 0);
    assert_eq!(d.wait_ms(500), Some(0));
    assert_eq!(d.take_due(500).len(), 1);
    d.changed("a", 600);
    assert_eq!(d.wait_ms(600), Some(200));
}

#[test]
fn rest_is_taken_at_the_end() {
    let mut d = Debounce::new();
    d.changed("a", u64::MAX);
    d.changed("b", u64::MAX);
    assert_eq!(d.close(), vec!["a".to_string(), "b".to_string()]);
    assert!(d.close().is_empty());
}
