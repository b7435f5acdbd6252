use etcddata::engine::{dump_to_snapshot, restore_plan};
use etcddata::entry::KeyValueEntry;
use etcddata::remote::RemoteStore;
use etcddata::snapshot::Snapshot;

fn entry(k: &str, v: &str, lease: u64) -> KeyValueEntry {
    KeyValueEntry::new(k.as_bytes().to_vec(), v.as_bytes().to_vec(), lease)
}

fn open_temp(dir: &tempfile::TempDir) -> Snapshot {
    Snapshot::open(dir.path().to_str().unwrap()).unwrap()
}

fn replay_all(remote: &mut RemoteStore, snap: &Snapshot) {
    for e in restore_plan(snap) {
        remote.put(e.key, e.value);
    }
}

fn got(remote: &RemoteStore, k: &str) -> Option<(String, u64)> {
    remote
        .get(&k.as_bytes().to_vec())
        .map(|(v, lease)| (String::from_utf8(v).unwrap(), lease))
}

#[test]
fn restore_replays_every_value_without_lease() {
    let dir = tempfile::tempdir().unwrap();
    let mut snap = open_temp(&dir);
    dump_to_snapshot(&mut snap, vec![entry("x", "1", 0), entry("y", "2", 7)], true).unwrap();

    let mut remote = RemoteStore::new();
    replay_all(&mut remote, &snap);

    assert_eq!(got(&remote, "x"), Some(("1".to_string(), 0)));
    assert_eq!(got(&remote, "y"), Some(("2".to_string(), 0)));
    assert_eq!(remote.fetch_all().len(), 2);
}

#[test]
fn restore_twice_leaves_the_same_state() {
    let dir = tempfile::tempdir().unwrap();
    let mut snap = open_temp(&dir);
    dump_to_snapshot(&mut snap, vec![entry("a", "1", 0), entry("b", "2", 0)], false).unwrap();

    let mut once = RemoteStore::new();
    replay_all(&mut once, &snap);
    let mut twice = RemoteStore::new();
    replay_all(&mut twice, &snap);
    replay_all(&mut twice, &snap);

    assert_eq!(got(&once, "a"), got(&twice, "a"));
    assert_eq!(got(&once, "b"), got(&twice, "b"));
    assert_eq!(once.fetch_all().len(), twice.fetch_all().len());
}

#[test]
fn restore_overwrites_a_leased_remote_entry_with_a_permanent_one() {
    let dir = tempfile::tempdir().unwrap();
    let mut snap = open_temp(&dir);
    dump_to_snapshot(&mut snap, vec![entry("y", "9", 0)], false).unwrap();

    let mut remote = RemoteStore::new();
    remote.seed("y".as_bytes().to_vec(), "2".as_bytes().to_vec(), 7);
    assert_eq!(got(&remote, "y"), Some(("2".to_string(), 7)));

    replay_all(&mut remote, &snap);
    assert_eq!(got(&remote, "y"), Some(("9".to_string(), 0)));
}

#[test]
fn failing_second_write_stops_the_restore() {
    let dir = tempfile::tempdir().unwrap();
    let mut snap = open_temp(&dir);
    dump_to_snapshot(
        &mut snap,
        vec![entry("a", "1", 0), entry("b", "2", 0), entry("c", "3", 0)],
        false,
    )
    .unwrap();

    // The remote store refuses the second write; the engine's plan is
    // replayed in order and abandoned right there, so the third entry is
    // never attempted.
    let mut remote = RemoteStore::new();
    let plan = restore_plan(&snap);
    assert_eq!(plan.len(), 3);
    let mut failed = false;
    for (i, e) in plan.into_iter().enumerate() {
        if i == 1 {
            failed = true;
            break;
        }
        remote.put(e.key, e.value);
    }
    assert!(failed);
    assert_eq!(got(&remote, "a"), Some(("1".to_string(), 0)));
    assert_eq!(got(&remote, "b"), None);
    assert_eq!(got(&remote, "c"), None);
    assert_eq!(remote.fetch_all().len(), 1);
}

#[test]
fn prefix_fetch_dumps_exactly_the_prefixed_permanent_keys() {
    let mut remote = RemoteStore::new();
    remote.seed("a/1".as_bytes().to_vec(), "v1".as_bytes().to_vec(), 0);
    remote.seed("a/2".as_bytes().to_vec(), "v2".as_bytes().to_vec(), 0);
    remote.seed("a/leased".as_bytes().to_vec(), "v3".as_bytes().to_vec(), 5);
    remote.seed("b/3".as_bytes().to_vec(), "v4".as_bytes().to_vec(), 0);

    let fetched = remote.fetch_prefix(&"a/".as_bytes().to_vec());
    assert_eq!(fetched.len(), 3);

    let dir = tempfile::tempdir().unwrap();
    let mut snap = open_temp(&dir);
    dump_to_snapshot(&mut snap, fetched, false).unwrap();

    let keys: Vec<String> = restore_plan(&snap)
        .into_iter()
        .map(|e| String::from_utf8(e.key).unwrap())
        .collect();
    assert_eq!(keys, vec!["a/1".to_string(), "a/2".to_string()]);
}

#[test]
fn empty_prefix_scopes_nothing_out() {
    let mut remote = RemoteStore::new();
    remote.seed("a".as_bytes().to_vec(), "1".as_bytes().to_vec(), 0);
    remote.seed("b".as_bytes().to_vec(), "2".as_bytes().to_vec(), 3);
    assert_eq!(remote.fetch_prefix(&Vec::new()).len(), remote.fetch_all().len());
}

#[test]
fn model_put_overwrites_and_get_misses_absent_keys() {
    let mut remote = RemoteStore::new();
    assert_eq!(got(&remote, "k"), None);
    remote.put("k".as_bytes().to_vec(), "1".as_bytes().to_vec());
    remote.put("k".as_bytes().to_vec(), "2".as_bytes().to_vec());
    assert_eq!(got(&remote, "k"), Some(("2".to_string(), 0)));
    assert_eq!(remote.fetch_all().len(), 1);
}
