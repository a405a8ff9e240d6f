use snapolation::vault::{Snapshot, Vault};

fn snap(id: u64, time: u64) -> Snapshot {
    Snapshot { id, time, entities: Vec::new() }
}

#[test]
fn default_store_is_empty_with_default_capacity() {
    let v = Vault::default();
    assert_eq!(v.vault.len(), 0);
    assert_eq!(v.vault_size, 120);
}

#[test]
fn ordering_after_out_of_order_adds() {
    let mut v = Vault::default();
    v.add(snap(2, 200));
    v.add(snap(1, 100));
    v.add(snap(3, 300));
    let times: Vec<u64> = v.vault.iter().map(|s| s.time).collect();
    assert_eq!(times, vec![300, 200, 100]);
    assert_eq!(v.get_latest().unwrap().id, 3);
}

#[test]
fn eviction_keeps_most_recent() {
    let mut v = Vault::with_capacity(2);
    v.add(snap(1, 100));
    v.add(snap(2, 200));
    v.add(snap(3, 300));
    assert_eq!(v.vault.len(), 2);
    assert!(v.get_by_id(1).is_none());
    assert!(v.get_by_id(2).is_some());
    assert!(v.get_by_id(3).is_some());
}

#[test]
fn eviction_removes_oldest_of_preinsert_set() {
    let mut v = Vault::with_capacity(2);
    v.add(snap(2, 200));
    v.add(snap(3, 300));
    v.add(snap(1, 100));
    assert_eq!(v.vault.len(), 2);
    assert!(v.get_by_id(2).is_none());
    assert!(v.get_by_id(3).is_some());
    assert!(v.get_by_id(1).is_some());
}

#[test]
fn capacity_never_exceeded() {
    let mut v = Vault::with_capacity(3);
    for k in 0..10u64 {
        v.add(snap(k, 1000 + k));
        assert!(v.vault.len() <= 3);
        let times: Vec<u64> = v.vault.iter().map(|s| s.time).collect();
        let mut sorted = times.clone();
        sorted.sort_by(|a, b| b.cmp(a));
        assert_eq!(times, sorted);
    }
}

#[test]
fn bracket_query_between() {
    let mut v = Vault::default();
    v.add(snap(100, 100));
    v.add(snap(200, 200));
    v.add(snap(300, 300));
    let (newer, older) = v.get_two_closest(250).unwrap();
    assert_eq!(newer.unwrap().id, 300);
    assert_eq!(older.id, 200);
}

#[test]
fn bracket_query_before_all_history() {
    let mut v = Vault::default();
    v.add(snap(100, 100));
    v.add(snap(200, 200));
    v.add(snap(300, 300));
    assert!(v.get_two_closest(50).is_none());
}

#[test]
fn bracket_query_after_newest() {
    let mut v = Vault::default();
    v.add(snap(100, 100));
    v.add(snap(200, 200));
    v.add(snap(300, 300));
    let (newer, older) = v.get_two_closest(350).unwrap();
    assert!(newer.is_none());
    assert_eq!(older.id, 300);
}

#[test]
fn closest_picks_nearer_snapshot() {
    let mut v = Vault::default();
    v.add(snap(100, 100));
    v.add(snap(200, 200));
    assert_eq!(v.get_closest(120).unwrap().id, 100);
    assert_eq!(v.get_closest(180).unwrap().id, 200);
}

#[test]
fn closest_tie_goes_to_newer() {
    let mut v = Vault::default();
    v.add(snap(100, 100));
    v.add(snap(200, 200));
    assert_eq!(v.get_closest(150).unwrap().id, 200);
}

#[test]
fn closest_boundary_cases() {
    let mut v = Vault::default();
    v.add(snap(100, 100));
    v.add(snap(200, 200));
    assert_eq!(v.get_closest(250).unwrap().id, 200);
    assert!(v.get_closest(50).is_none());
}

#[test]
fn clear_empties_store() {
    let mut v = Vault::with_capacity(5);
    v.add(snap(1, 100));
    v.add(snap(2, 200));
    v.clear();
    assert_eq!(v.vault.len(), 0);
    assert_eq!(v.vault_size, 5);
    assert!(v.get_latest().is_none());
}

#[test]
fn get_by_id_finds_match() {
    let mut v = Vault::default();
    v.add(snap(7, 100));
    v.add(snap(8, 200));
    assert_eq!(v.get_by_id(7).unwrap().time, 100);
    assert!(v.get_by_id(9).is_none());
}
