use etcddata::engine::{dump_to_snapshot, restore_plan};
use etcddata::entry::KeyValueEntry;
use etcddata::snapshot::Snapshot;

fn entry(k: &str, v: &str, lease: u64) -> KeyValueEntry {
    KeyValueEntry::new(k.as_bytes().to_vec(), v.as_bytes().to_vec(), lease)
}

fn open_temp(dir: &tempfile::TempDir) -> Snapshot {
    Snapshot::open(dir.path().to_str().unwrap()).unwrap()
}

fn plan_pairs(snap: &Snapshot) -> Vec<(String, String)> {
    restore_plan(snap)
        .into_iter()
        .map(|e| {
            (
                String::from_utf8(e.key).unwrap(),
                String::from_utf8(e.value).unwrap(),
            )
        })
        .collect()
}

#[test]
fn dump_keeps_only_permanent_entries() {
    let dir = tempfile::tempdir().unwrap();
    let mut snap = open_temp(&dir);
    let fetched = vec![entry("x", "1", 0), entry("y", "2", 7)];
    dump_to_snapshot(&mut snap, fetched, false).unwrap();
    assert_eq!(
        plan_pairs(&snap),
        vec![("x".to_string(), "1".to_string())]
    );
}

#[test]
fn dump_all_keeps_leased_entries() {
    let dir = tempfile::tempdir().unwrap();
    let mut snap = open_temp(&dir);
    let fetched = vec![entry("x", "1", 0), entry("y", "2", 7)];
    dump_to_snapshot(&mut snap, fetched, true).unwrap();
    assert_eq!(
        plan_pairs(&snap),
        vec![
            ("x".to_string(), "1".to_string()),
            ("y".to_string(), "2".to_string())
        ]
    );
}

#[test]
fn read_is_sorted_whatever_the_fetch_order() {
    let dir = tempfile::tempdir().unwrap();
    let mut snap = open_temp(&dir);
    let fetched = vec![entry("b", "2", 0), entry("c", "3", 0), entry("a", "1", 0)];
    dump_to_snapshot(&mut snap, fetched, false).unwrap();
    assert_eq!(
        plan_pairs(&snap),
        vec![
            ("a".to_string(), "1".to_string()),
            ("b".to_string(), "2".to_string()),
            ("c".to_string(), "3".to_string())
        ]
    );
}

#[test]
fn dump_overwrites_values_of_existing_keys() {
    let dir = tempfile::tempdir().unwrap();
    let mut snap = open_temp(&dir);
    dump_to_snapshot(&mut snap, vec![entry("k", "old", 0)], false).unwrap();
    dump_to_snapshot(&mut snap, vec![entry("k", "new", 0)], false).unwrap();
    assert_eq!(
        plan_pairs(&snap),
        vec![("k".to_string(), "new".to_string())]
    );
}

#[test]
fn dump_of_nothing_leaves_snapshot_empty() {
    let dir = tempfile::tempdir().unwrap();
    let mut snap = open_temp(&dir);
    dump_to_snapshot(&mut snap, Vec::new(), true).unwrap();
    assert_eq!(plan_pairs(&snap), Vec::<(String, String)>::new());
}

#[test]
fn restore_plan_carries_no_lease() {
    let dir = tempfile::tempdir().unwrap();
    let mut snap = open_temp(&dir);
    let fetched = vec![entry("x", "1", 0), entry("y", "2", 7)];
    dump_to_snapshot(&mut snap, fetched, true).unwrap();
    for e in restore_plan(&snap) {
        assert_eq!(e.lease_id, 0);
    }
}

#[test]
fn duplicate_keys_in_one_fetch_land_last_write_wins() {
    let dir = tempfile::tempdir().unwrap();
    let mut snap = open_temp(&dir);
    let fetched = vec![entry("k", "first", 0), entry("k", "second", 0)];
    dump_to_snapshot(&mut snap, fetched, false).unwrap();
    assert_eq!(
        plan_pairs(&snap),
        vec![("k".to_string(), "second".to_string())]
    );
}

#[test]
fn dump_keeps_binary_keys_and_values() {
    let dir = tempfile::tempdir().unwrap();
    let mut snap = open_temp(&dir);
    let fetched = vec![KeyValueEntry::new(vec![0u8, 255u8], vec![1u8, 2u8], 0)];
    dump_to_snapshot(&mut snap, fetched, false).unwrap();
    let plan = restore_plan(&snap);
    assert_eq!(plan.len(), 1);
    assert_eq!(plan[0].key, vec![0u8, 255u8]);
    assert_eq!(plan[0].value, vec![1u8, 2u8]);
}
