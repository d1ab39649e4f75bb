//! The hashing worker: it turns a sequence of claimed traversal entries into
//! checksum records and error reports.
//!
//! Reading from disk happens outside this library; the worker receives, for
//! each claimed path, the outcome of that read. A regular file's content is
//! hashed and recorded under its root-relative path; a directory is skipped;
//! a failed read produces exactly one error report and never aborts the run.
//! When its work is exhausted the worker hands back its records sorted under
//! the result-set order.

use vstd::prelude::*;
use vstd::slice::slice_subrange;
use vstd::slice::slice_to_vec;
use vstd::std_specs::vec::vec_index;
use crate::hashing::get_xxhash3_128_and_size;
use crate::hashing::xxh3_128_of;
use crate::records::HashRecord;
use crate::records::records_sorted;
use crate::records::sort_records;
use crate::records::views_of;

verus! {

broadcast use
    vstd::seq_lib::group_to_multiset_ensures,
    vstd::multiset::group_multiset_axioms;

/// A path separator byte: slash or backslash.
pub open spec fn is_separator(c: u8) -> bool {
    c == 47 || c == 92
}

/// The path recorded for a file: the part of `path` after the root-directory
/// prefix and one separator; the empty path when the file is the root
/// itself; the full path unchanged when the file lies outside the root, as
/// it can through a symbolic link.
pub open spec fn relative_path_of(path: Seq<u8>, root: Seq<u8>) -> Seq<u8> {
    if path.len() > root.len() && path.take(root.len() as int) == root && is_separator(
        path[root.len() as int],
    ) {
        path.skip(root.len() as int + 1)
    } else if path == root {
        Seq::empty()
    } else {
        path
    }
}

/// Whether `prefix` is a byte-wise prefix of `path`.
pub fn starts_with(path: &Vec<u8>, prefix: &Vec<u8>) -> (r: bool)
    ensures
        r == (prefix@.len() <= path@.len() && path@.take(prefix@.len() as int) == prefix@),
{
    if prefix.len() > path.len() {
        return false;
    }
    let n = prefix.len();
    let mut i: usize = 0;
    while i < n
        invariant
            0 <= i <= n,
            n == prefix@.len() <= path@.len(),
            forall|k: int| 0 <= k < i ==> path@[k] == prefix@[k],
        decreases n - i,
    {
        if *vec_index(path, i) != *vec_index(prefix, i) {
            proof {
                assert(path@.take(prefix@.len() as int)[i as int] != prefix@[i as int]);
            }
            return false;
        }
        i = i + 1;
    }
    proof {
        assert(path@.take(prefix@.len() as int) =~= prefix@);
    }
    true
}

/// Computes the recorded path for `path` under `root`.
pub fn relativize_path(path: &Vec<u8>, root: &Vec<u8>) -> (r: Vec<u8>)
    ensures
        r@ == relative_path_of(path@, root@),
{
    if path.len() > root.len() && starts_with(path, root) {
        let sep = *vec_index(path, root.len());
        if sep == 47 || sep == 92 {
            let tail = slice_subrange(path.as_slice(), root.len() + 1, path.len());
            return slice_to_vec(tail);
        }
        proof {
            assert(path@ != root@);
        }
        return slice_to_vec(path.as_slice());
    }
    if path.len() == root.len() && starts_with(path, root) {
        proof {
            assert(path@.take(path@.len() as int) =~= path@);
        }
        let empty: Vec<u8> = Vec::new();
        return empty;
    }
    proof {
        if path@.len() == root@.len() && path@ == root@ {
            assert(path@.take(root@.len() as int) =~= root@);
        }
    }
    slice_to_vec(path.as_slice())
}

/// What reading one claimed traversal entry produced, as handed to the
/// worker by the surrounding I/O layer.
pub enum FileOutcome {
    /// A regular file's entire content.
    Content(Vec<u8>),
    /// The entry is a directory: skipped without a report.
    NotRegular,
    /// The entry's metadata or content could not be read: the message
    /// describes the failure.
    ReadError(Vec<u8>),
}

/// One unit of work as claimed from the shared traversal cursor: the
/// entry's path and what reading it produced.
pub type FileTask = (Vec<u8>, FileOutcome);

/// One entry of the error channel: the failing path and a description of the
/// failure.
pub struct ErrorReport {
    pub path: Vec<u8>,
    pub message: Vec<u8>,
}

impl View for ErrorReport {
    type V = (Seq<u8>, Seq<u8>);

    open spec fn view(&self) -> (Seq<u8>, Seq<u8>) {
        (self.path@, self.message@)
    }
}

/// The views of a sequence of error reports.
pub open spec fn error_views_of(s: Seq<ErrorReport>) -> Seq<(Seq<u8>, Seq<u8>)> {
    s.map_values(|e: ErrorReport| e@)
}

/// The records a worker owes for a task list: one per readable regular file,
/// in task order.
pub open spec fn task_records(root: Seq<u8>, tasks: Seq<FileTask>) -> Seq<
    (Seq<u8>, u128, u64),
>
    decreases tasks.len(),
{
    if tasks.len() == 0 {
        Seq::empty()
    } else {
        let rest = task_records(root, tasks.drop_last());
        match tasks.last().1 {
            FileOutcome::Content(c) => rest.push(
                (relative_path_of(tasks.last().0@, root), xxh3_128_of(c@), c@.len() as u64),
            ),
            _ => rest,
        }
    }
}

/// The error reports a worker owes for a task list: one per failed read, in
/// task order.
pub open spec fn task_errors(tasks: Seq<FileTask>) -> Seq<(Seq<u8>, Seq<u8>)>
    decreases tasks.len(),
{
    if tasks.len() == 0 {
        Seq::empty()
    } else {
        let rest = task_errors(tasks.drop_last());
        match tasks.last().1 {
            FileOutcome::ReadError(m) => rest.push((tasks.last().0@, m@)),
            _ => rest,
        }
    }
}

/// The record one task owes, if any.
pub open spec fn record_of_task(root: Seq<u8>, task: FileTask) -> Option<(Seq<u8>, u128, u64)> {
    match task.1 {
        FileOutcome::Content(c) => Option::Some(
            (relative_path_of(task.0@, root), xxh3_128_of(c@), c@.len() as u64),
        ),
        _ => Option::None,
    }
}

/// Splitting a task list anywhere splits its records accordingly: the
/// records a worker pool owes for its combined work are the records each
/// share owes, one after the other.
pub proof fn lemma_task_records_concat(root: Seq<u8>, a: Seq<FileTask>, b: Seq<FileTask>)
    ensures
        task_records(root, a + b) == task_records(root, a) + task_records(root, b),
    decreases b.len(),
{
    if b.len() == 0 {
        assert(a + b =~= a);
        assert(task_records(root, a) + task_records(root, b) =~= task_records(root, a));
    } else {
        assert((a + b).drop_last() =~= a + b.drop_last());
        assert((a + b).last() == b.last());
        lemma_task_records_concat(root, a, b.drop_last());
        match b.last().1 {
            FileOutcome::Content(c) => {
                assert(task_records(root, a + b) =~= task_records(root, a) + task_records(
                    root,
                    b,
                ));
            },
            _ => {},
        }
    }
}

/// Removing one task removes exactly its record, if it owed one.
proof fn lemma_task_records_remove(root: Seq<u8>, tasks: Seq<FileTask>, i: int)
    requires
        0 <= i < tasks.len(),
    ensures
        (match record_of_task(root, tasks[i]) {
            Option::Some(rec) => task_records(root, tasks).to_multiset() == task_records(
                root,
                tasks.remove(i),
            ).to_multiset().insert(rec),
            Option::None => task_records(root, tasks).to_multiset() == task_records(
                root,
                tasks.remove(i),
            ).to_multiset(),
        }),
    decreases tasks.len(),
{
    let rest = tasks.drop_last();
    if i == tasks.len() - 1 {
        assert(tasks.remove(i) =~= rest);
    } else {
        lemma_task_records_remove(root, rest, i);
        assert(tasks.remove(i).drop_last() =~= rest.remove(i));
        assert(tasks.remove(i).last() == tasks.last());
        match tasks.last().1 {
            FileOutcome::Content(c) => {
                let last_rec = (relative_path_of(tasks.last().0@, root), xxh3_128_of(c@), c@.len()
                    as u64);
                assert(task_records(root, tasks).to_multiset() == task_records(
                    root,
                    rest,
                ).to_multiset().insert(last_rec));
                assert(task_records(root, tasks.remove(i)).to_multiset() == task_records(
                    root,
                    rest.remove(i),
                ).to_multiset().insert(last_rec));
                match record_of_task(root, tasks[i]) {
                    Option::Some(rec) => {
                        assert(task_records(root, tasks).to_multiset() =~= task_records(
                            root,
                            tasks.remove(i),
                        ).to_multiset().insert(rec));
                    },
                    Option::None => {},
                }
            },
            _ => {},
        }
    }
}

/// The multiset of records owed for a task list depends only on which tasks
/// it holds, not on the order in which they were claimed: two claim orders
/// over the same tasks owe the same records. Together with the sorting of
/// the final result set this makes the output independent of the thread
/// count and of scheduling.
pub proof fn lemma_task_records_of_same_tasks(
    root: Seq<u8>,
    tasks1: Seq<FileTask>,
    tasks2: Seq<FileTask>,
)
    requires
        tasks1.to_multiset() == tasks2.to_multiset(),
    ensures
        task_records(root, tasks1).to_multiset() == task_records(root, tasks2).to_multiset(),
    decreases tasks1.len(),
{
    if tasks1.len() == 0 {
        assert(tasks1.to_multiset().len() == tasks1.len());
        assert(tasks2.to_multiset().len() == tasks2.len());
        assert(tasks2.len() == 0);
    } else {
        let last = tasks1.last();
        let rest1 = tasks1.drop_last();
        assert(tasks1.contains(last));
        assert(tasks2.to_multiset().count(last) > 0);
        assert(tasks2.contains(last));
        let i = choose|i: int| 0 <= i < tasks2.len() && tasks2[i] == last;
        let rest2 = tasks2.remove(i);
        assert(rest1 =~= tasks1.remove(tasks1.len() - 1));
        assert(rest1.to_multiset() == tasks1.to_multiset().remove(last));
        assert(rest2.to_multiset() == tasks2.to_multiset().remove(last));
        lemma_task_records_of_same_tasks(root, rest1, rest2);
        lemma_task_records_remove(root, tasks1, tasks1.len() - 1);
        lemma_task_records_remove(root, tasks2, i);
    }
}

/// Determinism of a whole run: two runs that claimed the same tasks — in
/// any order, under any thread count — and each produced a sorted result
/// set carrying exactly the records owed for its tasks, produced the same
/// result set.
pub proof fn lemma_run_output_unique(
    root: Seq<u8>,
    tasks1: Seq<FileTask>,
    tasks2: Seq<FileTask>,
    out1: Seq<(Seq<u8>, u128, u64)>,
    out2: Seq<(Seq<u8>, u128, u64)>,
)
    requires
        tasks1.to_multiset() == tasks2.to_multiset(),
        records_sorted(out1),
        records_sorted(out2),
        out1.to_multiset() == task_records(root, tasks1).to_multiset(),
        out2.to_multiset() == task_records(root, tasks2).to_multiset(),
    ensures
        out1 == out2,
{
    lemma_task_records_of_same_tasks(root, tasks1, tasks2);
    crate::records::lemma_result_set_deterministic(out1, out2);
}

/// Runs one worker over the tasks it claimed, in claim order: hashes every
/// readable regular file with a buffer of `buffer_size` bytes, records it
/// under its root-relative path, reports every failed read, and finally
/// sorts its records under the result-set order.
///
/// A failed read never ends the run: a task list with one unreadable file
/// among readable ones still yields a record for every readable file, plus
/// exactly one error report for the unreadable one.
pub fn run_worker(root: &Vec<u8>, tasks: Vec<FileTask>, buffer_size: usize) -> (r: (
    Vec<HashRecord>,
    Vec<ErrorReport>,
))
    requires
        buffer_size >= 1,
    ensures
        records_sorted(views_of(r.0@)),
        views_of(r.0@).to_multiset() == task_records(root@, tasks@).to_multiset(),
        error_views_of(r.1@) == task_errors(tasks@),
        r.0@.len() == task_records(root@, tasks@).len(),
        r.1@.len() == task_errors(tasks@).len(),
{
    let mut recs: Vec<HashRecord> = Vec::new();
    let mut errs: Vec<ErrorReport> = Vec::new();
    let n = tasks.len();
    proof {
        assert(views_of(recs@) =~= Seq::<(Seq<u8>, u128, u64)>::empty());
        assert(error_views_of(errs@) =~= Seq::<(Seq<u8>, Seq<u8>)>::empty());
        assert(tasks@.take(0) =~= Seq::<FileTask>::empty());
    }
    let mut i: usize = 0;
    while i < n
        invariant
            0 <= i <= n,
            n == tasks@.len(),
            buffer_size >= 1,
            views_of(recs@) == task_records(root@, tasks@.take(i as int)),
            error_views_of(errs@) == task_errors(tasks@.take(i as int)),
        decreases n - i,
    {
        let ghost recs_before = recs@;
        let ghost errs_before = errs@;
        let task = vec_index(&tasks, i);
        match &task.1 {
            FileOutcome::Content(content) => {
                let (hash, size) = get_xxhash3_128_and_size(content.as_slice(), buffer_size);
                let rel = relativize_path(&task.0, root);
                recs.push(HashRecord { path: rel, hash, size });
                proof {
                    assert(views_of(recs@) =~= views_of(recs_before).push(
                        recs@[recs@.len() - 1]@,
                    ));
                }
            },
            FileOutcome::NotRegular => {},
            FileOutcome::ReadError(message) => {
                let path_copy = slice_to_vec(task.0.as_slice());
                let message_copy = slice_to_vec(message.as_slice());
                errs.push(ErrorReport { path: path_copy, message: message_copy });
                proof {
                    assert(error_views_of(errs@) =~= error_views_of(errs_before).push(
                        errs@[errs@.len() - 1]@,
                    ));
                }
            },
        }
        proof {
            assert(tasks@.take(i + 1).drop_last() =~= tasks@.take(i as int));
            assert(tasks@.take(i + 1).last() == tasks@[i as int]);
        }
        i = i + 1;
    }
    proof {
        assert(tasks@.take(n as int) =~= tasks@);
    }
    sort_records(&mut recs);
    (recs, errs)
}

/// Hashing when the root is itself a regular file: the hashing logic runs
/// directly on that one path, without traversal or a worker pool, and the
/// produced record carries the path exactly as given, not relativized.
///
/// The caller only reaches this after finding the root not to be a
/// directory, so a directory outcome is ruled out. A readable root yields
/// exactly one record and no report; an unreadable one yields no record and
/// exactly one report.
pub fn run_single_file(path: &Vec<u8>, outcome: FileOutcome, buffer_size: usize) -> (r: (
    Vec<HashRecord>,
    Vec<ErrorReport>,
))
    requires
        buffer_size >= 1,
        !(outcome is NotRegular),
    ensures
        outcome matches FileOutcome::Content(c) ==> views_of(r.0@) == seq![
            (path@, xxh3_128_of(c@), c@.len() as u64),
        ] && r.1@.len() == 0,
        outcome matches FileOutcome::ReadError(m) ==> r.0@.len() == 0 && error_views_of(r.1@)
            == seq![(path@, m@)],
{
    let mut recs: Vec<HashRecord> = Vec::new();
    let mut errs: Vec<ErrorReport> = Vec::new();
    match outcome {
        FileOutcome::Content(content) => {
            let (hash, size) = get_xxhash3_128_and_size(content.as_slice(), buffer_size);
            let path_copy = slice_to_vec(path.as_slice());
            recs.push(HashRecord { path: path_copy, hash, size });
            proof {
                assert(views_of(recs@) =~= seq![(path@, xxh3_128_of(content@), content@.len() as u64)]);
            }
        },
        FileOutcome::NotRegular => {},
        FileOutcome::ReadError(message) => {
            let path_copy = slice_to_vec(path.as_slice());
            errs.push(ErrorReport { path: path_copy, message });
            proof {
                assert(error_views_of(errs@) =~= seq![(path@, errs@[0].message@)]);
            }
        },
    }
    (recs, errs)
}

} // verus!
