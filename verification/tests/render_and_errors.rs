use etcddata::bytes::{bytes_eq, key_has_prefix};
use etcddata::entry::KeyValueEntry;
use etcddata::errors::SyncError;
use etcddata::render::{render_entry, render_plain, render_remote};

fn entry(k: &str, v: &str, lease: u64) -> KeyValueEntry {
    KeyValueEntry::new(k.as_bytes().to_vec(), v.as_bytes().to_vec(), lease)
}

#[test]
fn print_shows_only_permanent_entries_by_default() {
    let fetched = vec![entry("x", "1", 0), entry("y", "2", 7)];
    let lines = render_remote(fetched, false);
    assert_eq!(lines, vec!["x => 1".to_string()]);
}

#[test]
fn print_all_shows_leased_entries_too() {
    let fetched = vec![entry("x", "1", 0), entry("y", "2", 7)];
    let lines = render_remote(fetched, true);
    assert_eq!(lines, vec!["x => 1".to_string(), "y => 2".to_string()]);
}

#[test]
fn rendering_keeps_the_given_order() {
    let entries = vec![entry("b", "2", 0), entry("a", "1", 0)];
    let lines = render_plain(&entries);
    assert_eq!(lines, vec!["b => 2".to_string(), "a => 1".to_string()]);
}

#[test]
fn invalid_bytes_are_replaced_not_fatal() {
    let e = KeyValueEntry::new(vec![0xff, 0xfe], "ok".as_bytes().to_vec(), 0);
    let line = render_entry(&e);
    assert_eq!(line, "\u{fffd}\u{fffd} => ok".to_string());
}

#[test]
fn every_error_kind_has_its_own_description() {
    assert_eq!(
        SyncError::Connection.describe(),
        "remote store unreachable".to_string()
    );
    assert_eq!(
        SyncError::Auth.describe(),
        "remote store rejected the credentials".to_string()
    );
    assert_eq!(
        SyncError::Transport.describe(),
        "malformed response from the remote store".to_string()
    );
    assert_eq!(
        SyncError::WriteRejected.describe(),
        "remote store refused the write".to_string()
    );
    assert_eq!(
        SyncError::Storage.describe(),
        "local snapshot store failed".to_string()
    );
}

#[test]
fn byte_comparisons_follow_content_not_identity() {
    assert!(bytes_eq(&vec![1u8, 2u8], &vec![1u8, 2u8]));
    assert!(!bytes_eq(&vec![1u8, 2u8], &vec![1u8, 3u8]));
    assert!(!bytes_eq(&vec![1u8], &vec![1u8, 2u8]));
    assert!(key_has_prefix(&b"a/x".to_vec(), &b"a/".to_vec()));
    assert!(!key_has_prefix(&b"b/x".to_vec(), &b"a/".to_vec()));
    assert!(key_has_prefix(&b"abc".to_vec(), &b"".to_vec()));
    assert!(!key_has_prefix(&b"a".to_vec(), &b"a/".to_vec()));
}
