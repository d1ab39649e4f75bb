//! Hash records and the canonical result-set ordering.
//!
//! A record pairs a file's path (relative to the traversal root, kept as the
//! path's bytes) with its 128-bit content hash and byte size. The result set
//! is totally ordered by path first, then hash, then size; because the order
//! is total, a sorted sequence is determined by its multiset of records
//! alone, which is what makes the output independent of thread count and
//! scheduling.

use vstd::prelude::*;
use vstd::relations::sorted_by;
use vstd::relations::total_ordering;
use vstd::seq_lib::lemma_sorted_unique;
use vstd::std_specs::vec::vec_index;
use vstd::multiset::Multiset;

verus! {

broadcast use
    vstd::seq_lib::group_to_multiset_ensures,
    vstd::multiset::group_multiset_axioms;

/// One file's checksum entry: path bytes, 128-bit hash, byte size.
#[derive(Clone)]
pub struct HashRecord {
    pub path: Vec<u8>,
    pub hash: u128,
    pub size: u64,
}

impl View for HashRecord {
    type V = (Seq<u8>, u128, u64);

    open spec fn view(&self) -> (Seq<u8>, u128, u64) {
        (self.path@, self.hash, self.size)
    }
}

/// The views of a sequence of records.
pub open spec fn views_of(s: Seq<HashRecord>) -> Seq<(Seq<u8>, u128, u64)> {
    s.map_values(|r: HashRecord| r@)
}

/// Lexicographic order on byte sequences: a proper prefix comes first, and
/// otherwise the first differing byte decides.
pub open spec fn bytes_le(a: Seq<u8>, b: Seq<u8>) -> bool
    decreases a.len(),
{
    if a.len() == 0 {
        true
    } else if b.len() == 0 {
        false
    } else if a[0] < b[0] {
        true
    } else if a[0] > b[0] {
        false
    } else {
        bytes_le(a.drop_first(), b.drop_first())
    }
}

/// The result-set order: ascending by path bytes; for equal paths by hash,
/// then by size.
pub open spec fn record_le(a: (Seq<u8>, u128, u64), b: (Seq<u8>, u128, u64)) -> bool {
    if a.0 == b.0 {
        if a.1 == b.1 {
            a.2 <= b.2
        } else {
            a.1 < b.1
        }
    } else {
        bytes_le(a.0, b.0)
    }
}

/// The result-set order as a relation value, for use with `sorted_by`.
pub open spec fn record_leq() -> spec_fn((Seq<u8>, u128, u64), (Seq<u8>, u128, u64)) -> bool {
    |a: (Seq<u8>, u128, u64), b: (Seq<u8>, u128, u64)| record_le(a, b)
}

/// A record sequence sorted ascending under the result-set order.
pub open spec fn records_sorted(s: Seq<(Seq<u8>, u128, u64)>) -> bool {
    forall|i: int, j: int|
        #![trigger s[i], s[j]]
        0 <= i < j < s.len() ==> record_le(s[i], s[j])
}

pub proof fn lemma_bytes_le_refl(a: Seq<u8>)
    ensures
        bytes_le(a, a),
    decreases a.len(),
{
    if a.len() > 0 {
        lemma_bytes_le_refl(a.drop_first());
    }
}

pub proof fn lemma_bytes_le_antisym(a: Seq<u8>, b: Seq<u8>)
    requires
        bytes_le(a, b),
        bytes_le(b, a),
    ensures
        a == b,
    decreases a.len(),
{
    if a.len() == 0 {
        assert(b.len() == 0);
        assert(a =~= b);
    } else {
        assert(b.len() > 0);
        assert(a[0] == b[0]);
        lemma_bytes_le_antisym(a.drop_first(), b.drop_first());
        assert forall|i: int| 0 <= i < a.len() implies a[i] == b[i] by {
            if i > 0 {
                assert(a[i] == a.drop_first()[i - 1]);
                assert(b[i] == b.drop_first()[i - 1]);
            }
        }
        assert(a =~= b);
    }
}

pub proof fn lemma_bytes_le_trans(a: Seq<u8>, b: Seq<u8>, c: Seq<u8>)
    requires
        bytes_le(a, b),
        bytes_le(b, c),
    ensures
        bytes_le(a, c),
    decreases a.len(),
{
    if a.len() == 0 {
    } else {
        assert(b.len() > 0);
        assert(c.len() > 0);
        if a[0] == b[0] && b[0] == c[0] {
            lemma_bytes_le_trans(a.drop_first(), b.drop_first(), c.drop_first());
        }
    }
}

pub proof fn lemma_bytes_le_connected(a: Seq<u8>, b: Seq<u8>)
    ensures
        bytes_le(a, b) || bytes_le(b, a),
    decreases a.len(),
{
    if a.len() > 0 && b.len() > 0 && a[0] == b[0] {
        lemma_bytes_le_connected(a.drop_first(), b.drop_first());
    }
}

/// One of two records always precedes the other.
pub proof fn lemma_record_le_connected(a: (Seq<u8>, u128, u64), b: (Seq<u8>, u128, u64))
    ensures
        record_le(a, b) || record_le(b, a),
{
    if a.0 != b.0 {
        lemma_bytes_le_connected(a.0, b.0);
    }
}

/// Two records that precede each other are the same record.
pub proof fn lemma_record_le_antisym(a: (Seq<u8>, u128, u64), b: (Seq<u8>, u128, u64))
    requires
        record_le(a, b),
        record_le(b, a),
    ensures
        a == b,
{
    if a.0 == b.0 {
        assert(a.1 == b.1 && a.2 == b.2);
    } else {
        lemma_bytes_le_antisym(a.0, b.0);
    }
}

pub proof fn lemma_record_le_trans(
    a: (Seq<u8>, u128, u64),
    b: (Seq<u8>, u128, u64),
    c: (Seq<u8>, u128, u64),
)
    requires
        record_le(a, b),
        record_le(b, c),
    ensures
        record_le(a, c),
{
    if a.0 != b.0 && b.0 != c.0 {
        if a.0 == c.0 {
            lemma_bytes_le_antisym(a.0, b.0);
        } else {
            lemma_bytes_le_trans(a.0, b.0, c.0);
        }
    }
}

/// The result-set order is a total order, so a sorted sequence of records is
/// determined by its multiset alone.
pub proof fn lemma_record_le_total_ordering()
    ensures
        total_ordering(record_leq()),
{
    let leq = record_leq();
    assert forall|x: (Seq<u8>, u128, u64)| #[trigger] leq(x, x) by {
        lemma_bytes_le_refl(x.0);
    }
    assert forall|x: (Seq<u8>, u128, u64), y: (Seq<u8>, u128, u64)|
        #[trigger] leq(x, y) && #[trigger] leq(y, x) implies x == y by {
        lemma_record_le_antisym(x, y);
    }
    assert forall|x: (Seq<u8>, u128, u64), y: (Seq<u8>, u128, u64), z: (Seq<u8>, u128, u64)|
        #[trigger] leq(x, y) && #[trigger] leq(y, z) implies leq(x, z) by {
        lemma_record_le_trans(x, y, z);
    }
    assert forall|x: (Seq<u8>, u128, u64), y: (Seq<u8>, u128, u64)|
        #[trigger] leq(x, y) || #[trigger] leq(y, x) by {
        lemma_record_le_connected(x, y);
    }
}

/// If two byte sequences agree up to position `i` and differ at `i`, the
/// byte at `i` decides their order.
proof fn lemma_bytes_le_first_difference(a: Seq<u8>, b: Seq<u8>, i: int)
    requires
        0 <= i < a.len(),
        i < b.len(),
        forall|k: int| 0 <= k < i ==> a[k] == b[k],
        a[i] != b[i],
    ensures
        bytes_le(a, b) == (a[i] < b[i]),
    decreases i,
{
    if i == 0 {
    } else {
        assert(a.drop_first()[i - 1] != b.drop_first()[i - 1]);
        assert forall|k: int| 0 <= k < i - 1 implies a.drop_first()[k] == b.drop_first()[k] by {
            assert(a[k + 1] == b[k + 1]);
        }
        lemma_bytes_le_first_difference(a.drop_first(), b.drop_first(), i - 1);
    }
}

/// If one byte sequence is a prefix of the other, the shorter comes first.
proof fn lemma_bytes_le_common_prefix(a: Seq<u8>, b: Seq<u8>)
    requires
        forall|k: int| 0 <= k < a.len() && k < b.len() ==> a[k] == b[k],
    ensures
        bytes_le(a, b) == (a.len() <= b.len()),
    decreases a.len(),
{
    if a.len() > 0 && b.len() > 0 {
        assert(a[0] == b[0]);
        assert forall|k: int|
            0 <= k < a.drop_first().len() && k < b.drop_first().len() implies a.drop_first()[k]
            == b.drop_first()[k] by {
            assert(a[k + 1] == b[k + 1]);
        }
        lemma_bytes_le_common_prefix(a.drop_first(), b.drop_first());
    }
}

/// Decides `bytes_le` on byte vectors.
pub fn bytes_le_exec(a: &Vec<u8>, b: &Vec<u8>) -> (r: bool)
    ensures
        r == bytes_le(a@, b@),
{
    let n = if a.len() < b.len() {
        a.len()
    } else {
        b.len()
    };
    let mut i: usize = 0;
    while i < n && *vec_index(a, i) == *vec_index(b, i)
        invariant
            0 <= i <= n,
            n == if a@.len() < b@.len() {
                a@.len()
            } else {
                b@.len()
            },
            forall|k: int| 0 <= k < i ==> a@[k] == b@[k],
        decreases n - i,
    {
        i = i + 1;
    }
    if i == n {
        proof {
            lemma_bytes_le_common_prefix(a@, b@);
        }
        a.len() <= b.len()
    } else {
        proof {
            lemma_bytes_le_first_difference(a@, b@, i as int);
        }
        *vec_index(a, i) < *vec_index(b, i)
    }
}

/// Decides the result-set order on records.
pub fn record_le_exec(a: &HashRecord, b: &HashRecord) -> (r: bool)
    ensures
        r == record_le(a@, b@),
{
    let path_le_ab = bytes_le_exec(&a.path, &b.path);
    let path_le_ba = bytes_le_exec(&b.path, &a.path);
    if path_le_ab && path_le_ba {
        proof {
            lemma_bytes_le_antisym(a.path@, b.path@);
        }
        if a.hash == b.hash {
            a.size <= b.size
        } else {
            a.hash < b.hash
        }
    } else {
        proof {
            if a.path@ == b.path@ {
                lemma_bytes_le_refl(a.path@);
            }
        }
        path_le_ab
    }
}

/// Inserting anywhere into a sequence adds exactly that element to its
/// multiset.
proof fn lemma_to_multiset_insert<T>(s: Seq<T>, i: int, x: T)
    requires
        0 <= i <= s.len(),
    ensures
        s.insert(i, x).to_multiset() =~= s.to_multiset().insert(x),
{
    let t = s.insert(i, x);
    assert(t.remove(i) =~= s);
    assert(t[i] == x);
    assert(t.remove(i).to_multiset() =~= t.to_multiset().remove(x));
    assert(t.contains(x));
    assert(t.to_multiset().count(x) > 0);
    assert forall|e: T|
        t.to_multiset().count(e) == #[trigger] s.to_multiset().insert(x).count(e) by {
        assert(s.to_multiset().count(e) == t.to_multiset().remove(x).count(e));
    }
}

/// Dropping the last element removes exactly it from the multiset.
proof fn lemma_to_multiset_drop_last<T>(s: Seq<T>)
    requires
        s.len() > 0,
    ensures
        s.subrange(0, s.len() - 1).to_multiset() =~= s.to_multiset().remove(s[s.len() - 1]),
{
    assert(s.remove(s.len() - 1) =~= s.subrange(0, s.len() - 1));
    assert(s.remove(s.len() - 1).to_multiset() =~= s.to_multiset().remove(s[s.len() - 1]));
}

/// Inserts a record into a sorted vector, keeping it sorted.
pub fn insert_sorted(records: &mut Vec<HashRecord>, rec: HashRecord)
    requires
        records_sorted(views_of(old(records)@)),
    ensures
        records_sorted(views_of(final(records)@)),
        views_of(final(records)@).to_multiset() == views_of(old(records)@).to_multiset().insert(
            rec@,
        ),
        final(records)@.len() == old(records)@.len() + 1,
{
    let ghost old_views = views_of(records@);
    let mut idx: usize = 0;
    while idx < records.len() && record_le_exec(vec_index(records, idx), &rec)
        invariant
            0 <= idx <= records@.len(),
            records@ == old(records)@,
            forall|k: int| 0 <= k < idx ==> record_le(#[trigger] views_of(records@)[k], rec@),
        decreases records@.len() - idx,
    {
        proof {
            assert(views_of(records@)[idx as int] == records@[idx as int]@);
        }
        idx = idx + 1;
    }
    proof {
        let vs = views_of(records@);
        if idx < records@.len() {
            assert(vs[idx as int] == records@[idx as int]@);
            assert(!record_le(vs[idx as int], rec@));
            lemma_record_le_connected(rec@, vs[idx as int]);
            assert(record_le(rec@, vs[idx as int]));
        }
        assert forall|k: int| idx <= k < vs.len() implies record_le(rec@, #[trigger] vs[k]) by {
            if k > idx {
                assert(record_le(vs[idx as int], vs[k]));
                lemma_record_le_trans(rec@, vs[idx as int], vs[k]);
            }
        }
    }
    records.insert(idx, rec);
    proof {
        let vs = old_views;
        let nvs = views_of(records@);
        assert(nvs =~= vs.insert(idx as int, rec@));
        lemma_to_multiset_insert(vs, idx as int, rec@);
        assert forall|i: int, j: int|
            #![trigger nvs[i], nvs[j]]
            0 <= i < j < nvs.len() implies record_le(nvs[i], nvs[j]) by {
            if i < idx && j < idx {
                assert(nvs[i] == vs[i] && nvs[j] == vs[j]);
                assert(record_le(vs[i], vs[j]));
            } else if i < idx && j == idx {
                assert(nvs[i] == vs[i] && nvs[j] == rec@);
                assert(record_le(vs[i], rec@));
            } else if i < idx && j > idx {
                assert(nvs[i] == vs[i] && nvs[j] == vs[j - 1]);
                assert(record_le(vs[i], vs[j - 1]));
            } else if i == idx {
                assert(nvs[i] == rec@ && nvs[j] == vs[j - 1]);
                assert(record_le(rec@, vs[j - 1]));
            } else {
                assert(nvs[i] == vs[i - 1] && nvs[j] == vs[j - 1]);
                assert(record_le(vs[i - 1], vs[j - 1]));
            }
        }
    }
}

/// Sorts a record vector under the result-set order. The sorted content is
/// exactly the old content: same records, same multiplicities.
pub fn sort_records(records: &mut Vec<HashRecord>)
    ensures
        records_sorted(views_of(final(records)@)),
        views_of(final(records)@).to_multiset() == views_of(old(records)@).to_multiset(),
        final(records)@.len() == old(records)@.len(),
{
    let mut sorted_records: Vec<HashRecord> = Vec::new();
    proof {
        assert(views_of(Seq::<HashRecord>::empty()) =~= Seq::<(Seq<u8>, u128, u64)>::empty());
    }
    while records.len() > 0
        invariant
            records_sorted(views_of(sorted_records@)),
            views_of(sorted_records@).to_multiset().add(views_of(records@).to_multiset())
                =~= views_of(old(records)@).to_multiset(),
            sorted_records@.len() + records@.len() == old(records)@.len(),
        decreases records@.len(),
    {
        let ghost records_before = records@;
        let rec = records.pop().unwrap();
        proof {
            let vs = views_of(records_before);
            assert(views_of(records@) =~= vs.subrange(0, vs.len() - 1));
            assert(rec@ == vs[vs.len() - 1]);
            lemma_to_multiset_drop_last(vs);
            assert(vs.to_multiset().count(rec@) > 0) by {
                assert(vs.contains(vs[vs.len() - 1]));
            }
        }
        insert_sorted(&mut sorted_records, rec);
    }
    let ghost sorted_snapshot = sorted_records@;
    proof {
        assert(views_of(records@) =~= Seq::<(Seq<u8>, u128, u64)>::empty());
        assert(views_of(sorted_snapshot).to_multiset() =~= views_of(old(records)@).to_multiset());
    }
    records.append(&mut sorted_records);
    proof {
        assert(records@ =~= sorted_snapshot);
    }
}

/// The multiset of record views over a sequence of per-worker result lists.
pub open spec fn combined_multiset(workers: Seq<Vec<HashRecord>>) -> Multiset<
    (Seq<u8>, u128, u64),
>
    decreases workers.len(),
{
    if workers.len() == 0 {
        Multiset::empty()
    } else {
        combined_multiset(workers.drop_last()).add(views_of(workers.last()@).to_multiset())
    }
}

/// Merges the workers' locally collected records into one globally sorted
/// result set. Every record of every worker appears in the result with its
/// multiplicity kept: duplicate paths are preserved, never deduplicated.
pub fn aggregate(worker_results: Vec<Vec<HashRecord>>) -> (r: Vec<HashRecord>)
    ensures
        records_sorted(views_of(r@)),
        views_of(r@).to_multiset() == combined_multiset(worker_results@),
{
    let ghost orig = worker_results@;
    let mut pending = worker_results;
    let mut all: Vec<HashRecord> = Vec::new();
    proof {
        assert(views_of(all@) =~= Seq::<(Seq<u8>, u128, u64)>::empty());
    }
    while pending.len() > 0
        invariant
            views_of(all@).to_multiset().add(combined_multiset(pending@)) =~= combined_multiset(
                orig,
            ),
        decreases pending@.len(),
    {
        let ghost pending_before = pending@;
        let ghost all_before = all@;
        let mut one = pending.pop().unwrap();
        let ghost one_seq = one@;
        proof {
            assert(pending@ =~= pending_before.drop_last());
            assert(one == pending_before.last());
        }
        all.append(&mut one);
        proof {
            assert(all@ =~= all_before + one_seq);
            assert(views_of(all@) =~= views_of(all_before) + views_of(one_seq));
            vstd::seq_lib::lemma_multiset_commutative(views_of(all_before), views_of(one_seq));
        }
    }
    proof {
        assert(views_of(all@).to_multiset() =~= combined_multiset(orig));
    }
    sort_records(&mut all);
    all
}

/// The final result set is determined by which records were produced, not by
/// the thread count, by how the files were distributed among workers, or by
/// the order in which workers finished: any two sorted sequences carrying
/// the same multiset of records are the same sequence.
pub proof fn lemma_result_set_deterministic(
    a: Seq<(Seq<u8>, u128, u64)>,
    b: Seq<(Seq<u8>, u128, u64)>,
)
    requires
        records_sorted(a),
        records_sorted(b),
        a.to_multiset() == b.to_multiset(),
    ensures
        a == b,
{
    let leq = record_leq();
    lemma_record_le_total_ordering();
    assert(sorted_by(a, leq)) by {
        assert forall|i: int, j: int| 0 <= i < j < a.len() implies #[trigger] leq(a[i], a[j]) by {
            assert(record_le(a[i], a[j]));
        }
    }
    assert(sorted_by(b, leq)) by {
        assert forall|i: int, j: int| 0 <= i < j < b.len() implies #[trigger] leq(b[i], b[j]) by {
            assert(record_le(b[i], b[j]));
        }
    }
    lemma_sorted_unique(a, b, leq);
    assert(a =~= b);
}

} // verus!
