use treehash::records::{aggregate, record_le_exec, sort_records, HashRecord};

fn rec(path: &[u8], hash: u128, size: u64) -> HashRecord {
    HashRecord { path: path.to_vec(), hash, size }
}

fn as_tuples(records: &[HashRecord]) -> Vec<(Vec<u8>, u128, u64)> {
    records.iter().map(|r| (r.path.clone(), r.hash, r.size)).collect()
}

#[test]
fn order_is_path_then_hash_then_size() {
    assert!(record_le_exec(&rec(b"a", 9, 9), &rec(b"b", 0, 0)));
    assert!(!record_le_exec(&rec(b"b", 0, 0), &rec(b"a", 9, 9)));
    // A proper prefix comes first.
    assert!(record_le_exec(&rec(b"a", 9, 9), &rec(b"aa", 0, 0)));
    // Equal paths: the hash decides.
    assert!(record_le_exec(&rec(b"a", 1, 9), &rec(b"a", 2, 0)));
    assert!(!record_le_exec(&rec(b"a", 2, 0), &rec(b"a", 1, 9)));
    // Equal paths and hashes: the size decides.
    assert!(record_le_exec(&rec(b"a", 1, 1), &rec(b"a", 1, 2)));
    assert!(!record_le_exec(&rec(b"a", 1, 2), &rec(b"a", 1, 1)));
    assert!(record_le_exec(&rec(b"a", 1, 1), &rec(b"a", 1, 1)));
}

#[test]
fn sort_orders_ascending_by_path_hash_size() {
    let mut records = vec![
        rec(b"dir/z.bin", 5, 10),
        rec(b"a.bin", 7, 1),
        rec(b"dir/a.bin", 1, 1),
        rec(b"a.bin", 2, 8),
        rec(b"a.bin", 2, 3),
    ];
    sort_records(&mut records);
    let got = as_tuples(&records);
    let want = vec![
        (b"a.bin".to_vec(), 2, 3),
        (b"a.bin".to_vec(), 2, 8),
        (b"a.bin".to_vec(), 7, 1),
        (b"dir/a.bin".to_vec(), 1, 1),
        (b"dir/z.bin".to_vec(), 5, 10),
    ];
    assert_eq!(got, want);
}

#[test]
fn aggregate_is_independent_of_partition() {
    let all = [
        rec(b"p/one", 11, 1),
        rec(b"p/two", 22, 2),
        rec(b"q/three", 33, 3),
        rec(b"a/zero", 44, 4),
        rec(b"p/one", 11, 1),
    ];
    // One worker got everything.
    let single = aggregate(vec![all.to_vec()]);
    // Three workers got slices, in a different order.
    let split = aggregate(vec![
        vec![all[3].clone(), all[1].clone()],
        vec![all[4].clone()],
        vec![all[0].clone(), all[2].clone()],
    ]);
    assert_eq!(as_tuples(&single), as_tuples(&split));
    // Duplicates are preserved, not deduplicated.
    assert_eq!(single.len(), 5);
    assert_eq!(as_tuples(&single)[1], (b"p/one".to_vec(), 11, 1));
    assert_eq!(as_tuples(&single)[2], (b"p/one".to_vec(), 11, 1));
}

#[test]
fn aggregate_of_nothing_is_empty() {
    assert_eq!(aggregate(vec![]).len(), 0);
    assert_eq!(aggregate(vec![vec![], vec![]]).len(), 0);
}
