use treehash::records::aggregate;
use treehash::worker::{relativize_path, run_single_file, run_worker, FileOutcome};

#[test]
fn relativize_strips_root_and_separator() {
    assert_eq!(
        relativize_path(&b"/data/Official/pkg/file.bin".to_vec(), &b"/data/Official".to_vec()),
        b"pkg/file.bin".to_vec()
    );
    assert_eq!(
        relativize_path(&b"C:\\data\\pkg".to_vec(), &b"C:\\data".to_vec()),
        b"pkg".to_vec()
    );
}

#[test]
fn relativize_keeps_foreign_paths() {
    // A path outside the root, e.g. reached through a symbolic link, stays
    // as it is.
    assert_eq!(
        relativize_path(&b"/elsewhere/file.bin".to_vec(), &b"/data/Official".to_vec()),
        b"/elsewhere/file.bin".to_vec()
    );
    // A path that merely extends the root name without a separator is not
    // under the root.
    assert_eq!(
        relativize_path(&b"/data/Official2/f".to_vec(), &b"/data/Official".to_vec()),
        b"/data/Official2/f".to_vec()
    );
    // The root itself relativizes to the empty path.
    assert_eq!(relativize_path(&b"/data".to_vec(), &b"/data".to_vec()), b"".to_vec());
}

#[test]
fn one_unreadable_file_gives_one_report_and_full_records() {
    let tasks = vec![
        (b"/root/a.bin".to_vec(), FileOutcome::Content(vec![1, 2, 3])),
        (b"/root/sub".to_vec(), FileOutcome::NotRegular),
        (b"/root/locked.bin".to_vec(), FileOutcome::ReadError(b"permission denied".to_vec())),
        (b"/root/b.bin".to_vec(), FileOutcome::Content(vec![])),
        (b"/root/c.bin".to_vec(), FileOutcome::Content(vec![9; 4000])),
    ];
    let (records, errors) = run_worker(&b"/root".to_vec(), tasks, 1024);
    // Three readable files yield three records; the unreadable one yields
    // exactly one report; the run completed.
    assert_eq!(records.len(), 3);
    assert_eq!(errors.len(), 1);
    assert_eq!(errors[0].path, b"/root/locked.bin".to_vec());
    assert_eq!(errors[0].message, b"permission denied".to_vec());
    // Records come out sorted by relative path.
    assert_eq!(records[0].path, b"a.bin".to_vec());
    assert_eq!(records[1].path, b"b.bin".to_vec());
    assert_eq!(records[2].path, b"c.bin".to_vec());
    // Hash and size match the content.
    assert_eq!(records[0].hash, xxhash_rust::xxh3::xxh3_128(&[1, 2, 3]));
    assert_eq!(records[0].size, 3);
    assert_eq!(records[1].hash, xxhash_rust::xxh3::xxh3_128(&[]));
    assert_eq!(records[1].size, 0);
    assert_eq!(records[2].hash, xxhash_rust::xxh3::xxh3_128(&[9; 4000]));
    assert_eq!(records[2].size, 4000);
}

#[test]
fn zero_byte_file_yields_empty_digest_and_size_zero() {
    let tasks = vec![(b"/r/empty.bin".to_vec(), FileOutcome::Content(vec![]))];
    let (records, errors) = run_worker(&b"/r".to_vec(), tasks, 64);
    assert_eq!(errors.len(), 0);
    assert_eq!(records.len(), 1);
    assert_eq!(records[0].size, 0);
    assert_eq!(records[0].hash, xxhash_rust::xxh3::xxh3_128(&[]));
}

#[test]
fn result_set_is_independent_of_work_distribution() {
    let root = b"/r".to_vec();
    let files: Vec<(Vec<u8>, Vec<u8>)> = (0..20)
        .map(|i| {
            (format!("/r/f{:02}.bin", i).into_bytes(), vec![i as u8; 100 * (i + 1) as usize])
        })
        .collect();
    let as_tasks = |idx: &[usize]| -> Vec<(Vec<u8>, FileOutcome)> {
        idx.iter()
            .map(|&i| (files[i].0.clone(), FileOutcome::Content(files[i].1.clone())))
            .collect()
    };
    // One worker claimed every file.
    let one = {
        let order: Vec<usize> = (0..20).collect();
        let (r, _) = run_worker(&root, as_tasks(&order), 256);
        aggregate(vec![r])
    };
    // Three workers claimed interleaved shares, in scrambled order.
    let three = {
        let (r0, _) = run_worker(&root, as_tasks(&[19, 2, 5, 8, 11, 14, 17]), 256);
        let (r1, _) = run_worker(&root, as_tasks(&[1, 4, 7, 10, 13, 16, 0]), 256);
        let (r2, _) = run_worker(&root, as_tasks(&[3, 6, 9, 12, 15, 18]), 256);
        aggregate(vec![r0, r1, r2])
    };
    assert_eq!(one.len(), 20);
    assert_eq!(three.len(), 20);
    for (a, b) in one.iter().zip(three.iter()) {
        assert_eq!(a.path, b.path);
        assert_eq!(a.hash, b.hash);
        assert_eq!(a.size, b.size);
    }
}

#[test]
fn single_file_root_keeps_its_full_path() {
    let content = vec![42u8; 1234];
    let (records, errors) =
        run_single_file(&b"/somewhere/file.bin".to_vec(), FileOutcome::Content(content.clone()), 64);
    assert_eq!(errors.len(), 0);
    assert_eq!(records.len(), 1);
    // The path is exactly the given one, not relativized.
    assert_eq!(records[0].path, b"/somewhere/file.bin".to_vec());
    assert_eq!(records[0].hash, xxhash_rust::xxh3::xxh3_128(&content));
    assert_eq!(records[0].size, 1234);
}

#[test]
fn single_file_root_read_error_is_reported() {
    let (records, errors) = run_single_file(
        &b"/somewhere/file.bin".to_vec(),
        FileOutcome::ReadError(b"i/o fault".to_vec()),
        64,
    );
    assert_eq!(records.len(), 0);
    assert_eq!(errors.len(), 1);
    assert_eq!(errors[0].path, b"/somewhere/file.bin".to_vec());
    assert_eq!(errors[0].message, b"i/o fault".to_vec());
}
