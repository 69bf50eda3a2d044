//! The cached index: one record per directory, keyed by the directory's
//! path, each holding the directory's last seen modification time and its
//! files in name order.
//!
//! The index is kept as an association list sorted strictly by path, which
//! makes lookups logarithmic and gives every consumer the same order.

use crate::paths::PathSet;
use crate::text::{
    compare_text, lemma_text_le_transitive, lemma_text_less_irreflexive, lemma_text_less_total, lemma_text_less_transitive,
    text_less,
};
use std::cmp::Ordering;
use vstd::prelude::*;

verus! {

/// One indexed file.
#[derive(Clone, Debug)]
pub struct FileEntry {
    pub filename: String,
    pub size: u64,
    pub ctime: i64,
    pub mtime: i64,
}

/// What a `FileEntry` holds, as plain values.
pub struct FileInfo {
    pub filename: Seq<char>,
    pub size: u64,
    pub ctime: i64,
    pub mtime: i64,
}

impl View for FileEntry {
    type V = FileInfo;

    open spec fn view(&self) -> FileInfo {
        FileInfo { filename: self.filename@, size: self.size, ctime: self.ctime, mtime: self.mtime }
    }
}

/// One indexed directory: its own modification time at the last scan and
/// its files.
#[derive(Clone, Debug)]
pub struct DirEntry {
    pub dir_mtime: i64,
    pub files: Vec<FileEntry>,
}

/// What a `DirEntry` holds, as plain values.
pub struct DirInfo {
    pub dir_mtime: i64,
    pub files: Seq<FileInfo>,
}

/// The plain values of each file.
pub open spec fn file_infos(files: Seq<FileEntry>) -> Seq<FileInfo> {
    files.map_values(|f: FileEntry| f@)
}

impl View for DirEntry {
    type V = DirInfo;

    open spec fn view(&self) -> DirInfo {
        DirInfo { dir_mtime: self.dir_mtime, files: file_infos(self.files@) }
    }
}

/// A record of the index: a directory path and what is known of it.
pub type Record = (Seq<char>, DirInfo);

/// The records are sorted strictly by path, so no path occurs twice.
pub open spec fn well_sorted(records: Seq<Record>) -> bool {
    forall|i: int, j: int|
        0 <= i < j < records.len() ==> text_less(#[trigger] records[i].0, #[trigger] records[j].0)
}

/// Whether some record has path `key`.
pub open spec fn has_key(records: Seq<Record>, key: Seq<char>) -> bool {
    exists|i: int| 0 <= i < records.len() && #[trigger] records[i].0 == key
}

/// The position of the record with path `key`, when there is one.
pub open spec fn index_of(records: Seq<Record>, key: Seq<char>) -> int {
    choose|i: int| 0 <= i < records.len() && #[trigger] records[i].0 == key
}

/// The record held for path `key`, when there is one.
pub open spec fn info_of(records: Seq<Record>, key: Seq<char>) -> DirInfo {
    records[index_of(records, key)].1
}

/// How many records of a sorted index have a path before `key`.
pub open spec fn rank(records: Seq<Record>, key: Seq<char>) -> int
    decreases records.len(),
{
    if records.len() == 0 {
        0
    } else if text_less(records.last().0, key) {
        records.len() as int
    } else {
        rank(records.drop_last(), key)
    }
}

/// The index after recording `info` for path `key`: the record for `key`
/// is replaced, or a new one is placed where the order puts it.
pub open spec fn put(records: Seq<Record>, key: Seq<char>, info: DirInfo) -> Seq<Record> {
    if has_key(records, key) {
        records.update(index_of(records, key), (key, info))
    } else {
        records.insert(rank(records, key), (key, info))
    }
}

/// The records whose path satisfies `keep`, in their order.
pub open spec fn retain(records: Seq<Record>, keep: Set<Seq<char>>) -> Seq<Record>
    decreases records.len(),
{
    if records.len() == 0 {
        records
    } else if keep.contains(records.last().0) {
        retain(records.drop_last(), keep).push(records.last())
    } else {
        retain(records.drop_last(), keep)
    }
}

/// In a sorted index, the records before the rank of `key` are exactly
/// those with a path before `key`.
pub proof fn lemma_rank(records: Seq<Record>, key: Seq<char>)
    requires
        well_sorted(records),
    ensures
        0 <= rank(records, key) <= records.len(),
        forall|i: int| 0 <= i < rank(records, key) ==> text_less(#[trigger] records[i].0, key),
        forall|i: int|
            rank(records, key) <= i < records.len() ==> !text_less(#[trigger] records[i].0, key),
    decreases records.len(),
{
    if records.len() > 0 {
        let n = records.len() - 1;
        let last = records[n].0;
        let init = records.drop_last();
        if text_less(last, key) {
            assert forall|i: int| 0 <= i < records.len() implies text_less(
                #[trigger] records[i].0,
                key,
            ) by {
                if i < n {
                    assert(text_less(records[i].0, records[n].0));
                    lemma_text_less_transitive(records[i].0, last, key);
                }
            }
        } else {
            assert(well_sorted(init)) by {
                assert forall|i: int, j: int| 0 <= i < j < init.len() implies text_less(
                    #[trigger] init[i].0,
                    #[trigger] init[j].0,
                ) by {
                    assert(init[i] == records[i] && init[j] == records[j]);
                }
            }
            lemma_rank(init, key);
            assert forall|i: int| 0 <= i < rank(records, key) implies text_less(
                #[trigger] records[i].0,
                key,
            ) by {
                assert(init[i] == records[i]);
            }
            assert forall|i: int| rank(records, key) <= i < records.len() implies !text_less(
                #[trigger] records[i].0,
                key,
            ) by {
                if i < n {
                    assert(init[i] == records[i]);
                }
            }
        }
    }
}

/// In a sorted index, a path is found at its own position.
pub proof fn lemma_index_of(records: Seq<Record>, i: int)
    requires
        well_sorted(records),
        0 <= i < records.len(),
    ensures
        has_key(records, records[i].0),
        index_of(records, records[i].0) == i,
{
    let k = records[i].0;
    assert(records[i].0 == k);
    let j = index_of(records, k);
    if j != i {
        if j < i {
            lemma_text_less_irreflexive(k);
        } else {
            lemma_text_less_irreflexive(k);
        }
    }
}

/// Recording a path keeps the index sorted, holds the new record for that
/// path, and leaves every other path as it was.
pub proof fn lemma_put_sorted(records: Seq<Record>, key: Seq<char>, info: DirInfo)
    requires
        well_sorted(records),
    ensures
        well_sorted(put(records, key, info)),
        has_key(put(records, key, info), key),
        info_of(put(records, key, info), key) == info,
        forall|k: Seq<char>|
            k != key ==> (has_key(put(records, key, info), k) == has_key(records, k)),
        forall|k: Seq<char>|
            k != key && has_key(records, k) ==> info_of(put(records, key, info), k) == info_of(
                records,
                k,
            ),
{
    let r = put(records, key, info);
    if has_key(records, key) {
        let p = index_of(records, key);
        assert(well_sorted(r));
        lemma_index_of(r, p);
        assert forall|k: Seq<char>| k != key implies (has_key(r, k) == has_key(records, k)) by {
            if has_key(records, k) {
                let j = index_of(records, k);
                assert(r[j].0 == k);
            }
            if has_key(r, k) {
                let j = index_of(r, k);
                assert(records[j].0 == k);
            }
        }
        assert forall|k: Seq<char>| k != key && has_key(records, k) implies info_of(r, k)
            == info_of(records, k) by {
            let j = index_of(records, k);
            lemma_index_of(records, j);
            lemma_index_of(r, j);
        }
    } else {
        let p = rank(records, key);
        lemma_rank(records, key);
        records.insert_ensures(p, (key, info));
        assert forall|i: int| 0 <= i < records.len() implies #[trigger] records[i].0 != key by {
            if records[i].0 == key {
                assert(has_key(records, key));
            }
        }
        assert forall|i: int, j: int| 0 <= i < j < r.len() implies text_less(
            #[trigger] r[i].0,
            #[trigger] r[j].0,
        ) by {
            if j < p {
            } else if j == p {
            } else if i < p {
                lemma_text_less_total(records[j - 1].0, key);
                lemma_text_less_transitive(records[i].0, key, records[j - 1].0);
            } else if i == p {
                lemma_text_less_total(records[j - 1].0, key);
            } else {
                assert(text_less(records[i - 1].0, records[j - 1].0));
            }
        }
        lemma_index_of(r, p);
        assert forall|k: Seq<char>| k != key implies (has_key(r, k) == has_key(records, k)) by {
            if has_key(records, k) {
                let j = index_of(records, k);
                if j < p {
                    assert(r[j].0 == k);
                } else {
                    assert(r[j + 1].0 == k);
                }
            }
            if has_key(r, k) {
                let j = index_of(r, k);
                if j < p {
                    assert(records[j].0 == k);
                } else {
                    assert(records[j - 1].0 == k);
                }
            }
        }
        assert forall|k: Seq<char>| k != key && has_key(records, k) implies info_of(r, k)
            == info_of(records, k) by {
            let j = index_of(records, k);
            lemma_index_of(records, j);
            if j < p {
                lemma_index_of(r, j);
            } else {
                lemma_index_of(r, j + 1);
            }
        }
    }
}

/// Pruning keeps the index sorted and keeps exactly the records whose path
/// is kept, unchanged.
pub proof fn lemma_retain(records: Seq<Record>, keep: Set<Seq<char>>)
    requires
        well_sorted(records),
    ensures
        well_sorted(retain(records, keep)),
        retain(records, keep).len() <= records.len(),
        forall|k: Seq<char>|
            has_key(retain(records, keep), k) == (has_key(records, k) && keep.contains(k)),
        forall|k: Seq<char>|
            has_key(records, k) && keep.contains(k) ==> info_of(retain(records, keep), k) == info_of(
                records,
                k,
            ),
    decreases records.len(),
{
    if records.len() > 0 {
        let init = records.drop_last();
        let last = records.last();
        lemma_retain(init, keep);
        let ri = retain(init, keep);
        let r = retain(records, keep);
        assert forall|k: Seq<char>| has_key(init, k) implies text_less(k, last.0) by {
            let j = index_of(init, k);
            assert(records[j].0 == k);
        }
        assert forall|k: Seq<char>| #[trigger] has_key(records, k) == (has_key(init, k) || k
            == last.0) by {
            if has_key(records, k) {
                let j = index_of(records, k);
                if j < init.len() {
                    assert(init[j].0 == k);
                }
            }
            if has_key(init, k) {
                let j = index_of(init, k);
                assert(records[j].0 == k);
            }
            if k == last.0 {
                assert(records[records.len() - 1].0 == k);
            }
        }
        if keep.contains(last.0) {
            assert forall|i: int, j: int| 0 <= i < j < r.len() implies text_less(
                #[trigger] r[i].0,
                #[trigger] r[j].0,
            ) by {
                assert(ri[i] == r[i]);
                if j == r.len() - 1 {
                    assert(has_key(ri, ri[i].0));
                    assert(has_key(init, ri[i].0));
                } else {
                    assert(ri[j] == r[j]);
                }
            }
            lemma_text_less_irreflexive(last.0);
            assert forall|k: Seq<char>| has_key(r, k) == (has_key(records, k) && keep.contains(k)) by {
                if has_key(r, k) {
                    let j = index_of(r, k);
                    if j < ri.len() {
                        assert(ri[j].0 == k);
                    }
                }
                if has_key(ri, k) {
                    let j = index_of(ri, k);
                    assert(r[j].0 == k);
                }
                if k == last.0 {
                    assert(r[r.len() - 1].0 == k);
                }
            }
            assert forall|k: Seq<char>| has_key(records, k) && keep.contains(k) implies info_of(r, k)
                == info_of(records, k) by {
                lemma_index_of(records, index_of(records, k));
                if k == last.0 {
                    lemma_index_of(records, records.len() - 1);
                    lemma_index_of(r, r.len() - 1);
                } else {
                    let j = index_of(init, k);
                    lemma_index_of(init, j);
                    lemma_index_of(records, j);
                    let jr = index_of(ri, k);
                    lemma_index_of(ri, jr);
                    lemma_index_of(r, jr);
                }
            }
        } else {
            lemma_text_less_irreflexive(last.0);
            assert forall|k: Seq<char>| has_key(records, k) && keep.contains(k) implies info_of(r, k)
                == info_of(records, k) by {
                let j = index_of(init, k);
                lemma_index_of(init, j);
                lemma_index_of(records, j);
            }
        }
    }
}

/// Pruning never adds records.
pub proof fn lemma_retain_len(records: Seq<Record>, keep: Set<Seq<char>>)
    ensures
        retain(records, keep).len() <= records.len(),
    decreases records.len(),
{
    if records.len() > 0 {
        lemma_retain_len(records.drop_last(), keep);
    }
}

/// The scan index: a mapping from directory path to directory record.
#[derive(Debug)]
pub struct ScanState {
    dirs: Vec<(String, DirEntry)>,
}

/// A path and its directory entry, as a record.
pub open spec fn record_of(e: (String, DirEntry)) -> Record {
    (e.0@, e.1@)
}

impl View for ScanState {
    type V = Seq<Record>;

    closed spec fn view(&self) -> Seq<Record> {
        self.dirs@.map_values(|e: (String, DirEntry)| record_of(e))
    }
}

impl ScanState {
    #[verifier::type_invariant]
    pub open spec fn inv(&self) -> bool {
        well_sorted(self@)
    }

    /// An empty index.
    pub fn new() -> (r: ScanState)
        ensures
            r@ == Seq::<Record>::empty(),
    {
        let r = ScanState { dirs: Vec::new() };
        assert(r@ =~= Seq::<Record>::empty());
        r
    }

    /// The number of directories recorded.
    pub fn len(&self) -> (r: usize)
        ensures
            r == self@.len(),
    {
        self.dirs.len()
    }

    /// Whether no directory is recorded.
    pub fn is_empty(&self) -> (r: bool)
        ensures
            r == (self@.len() == 0),
    {
        self.dirs.len() == 0
    }

    /// The path and record at position `i` of the path order.
    pub fn entry_at(&self, i: usize) -> (r: (&String, &DirEntry))
        requires
            i < self@.len(),
        ensures
            r.0@ == self@[i as int].0,
            r.1@ == self@[i as int].1,
    {
        let e = &self.dirs[i];
        (&e.0, &e.1)
    }

    /// Where `key` stands in the path order, and whether it is recorded.
    fn locate(&self, key: &str) -> (r: (usize, bool))
        ensures
            r.0 == rank(self@, key@),
            r.1 == has_key(self@, key@),
            r.1 ==> index_of(self@, key@) == r.0 && self@[r.0 as int].0 == key@,
    {
        proof {
            use_type_invariant(self);
            lemma_rank(self@, key@);
        }
        let mut lo: usize = 0;
        let mut hi: usize = self.dirs.len();
        while lo < hi
            invariant
                lo <= hi <= self@.len(),
                self@.len() == self.dirs@.len(),
                well_sorted(self@),
                forall|i: int| 0 <= i < lo ==> text_less(#[trigger] self@[i].0, key@),
                forall|i: int| hi <= i < self@.len() ==> !text_less(#[trigger] self@[i].0, key@),
                forall|i: int| 0 <= i < self@.len() ==> #[trigger] self@[i] == record_of(self.dirs@[i]),
            decreases hi - lo,
        {
            let mid = lo + (hi - lo) / 2;
            let c = compare_text(self.dirs[mid].0.as_str(), key);
            if let Ordering::Less = c {
                proof {
                    assert forall|i: int| 0 <= i <= mid implies text_less(
                        #[trigger] self@[i].0,
                        key@,
                    ) by {
                        if i < mid {
                            lemma_text_less_transitive(self@[i].0, self@[mid as int].0, key@);
                        }
                    }
                }
                lo = mid + 1;
            } else {
                proof {
                    assert forall|i: int| mid <= i < self@.len() implies !text_less(
                        #[trigger] self@[i].0,
                        key@,
                    ) by {
                        if i > mid && text_less(self@[i].0, key@) {
                            lemma_text_less_transitive(self@[mid as int].0, self@[i].0, key@);
                        }
                    }
                }
                hi = mid;
            }
        }
        proof {
            assert forall|i: int| 0 <= i < self@.len() && i != lo implies #[trigger] self@[i].0
                != key@ by {
                if i < lo {
                    lemma_text_less_irreflexive(key@);
                } else {
                    assert(text_less(self@[lo as int].0, self@[i].0));
                }
            }
        }
        let found = lo < self.dirs.len() && match compare_text(self.dirs[lo].0.as_str(), key) {
            Ordering::Equal => true,
            _ => false,
        };
        proof {
            if found {
                lemma_index_of(self@, lo as int);
            } else if has_key(self@, key@) {
                let j = index_of(self@, key@);
                assert(self@[j].0 == key@);
            }
            if rank(self@, key@) < lo {
                let q = rank(self@, key@);
                lemma_text_less_irreflexive(key@);
                assert(!text_less(self@[q].0, key@));
            }
            if rank(self@, key@) > lo {
                assert(text_less(self@[lo as int].0, key@));
            }
        }
        (lo, found)
    }

    /// How many recorded paths come before `key` in the path order.
    pub fn lower_bound(&self, key: &str) -> (r: usize)
        ensures
            r == rank(self@, key@),
            r <= self@.len(),
    {
        proof {
            use_type_invariant(self);
            lemma_rank(self@, key@);
        }
        self.locate(key).0
    }

    /// Whether `key` is recorded.
    pub fn contains_key(&self, key: &str) -> (r: bool)
        ensures
            r == has_key(self@, key@),
    {
        self.locate(key).1
    }

    /// The record of `key`, when there is one.
    pub fn get(&self, key: &str) -> (r: Option<&DirEntry>)
        ensures
            r is Some == has_key(self@, key@),
            r is Some ==> r->0@ == info_of(self@, key@),
    {
        let (i, found) = self.locate(key);
        if found {
            Some(&self.dirs[i].1)
        } else {
            None
        }
    }

    /// Records `entry` for `key`, replacing any earlier record of `key`.
    pub fn insert(&mut self, key: String, entry: DirEntry)
        ensures
            final(self)@ == put(old(self)@, key@, entry@),
    {
        proof {
            use_type_invariant(&*self);
        }
        let (i, found) = self.locate(key.as_str());
        let ghost before = self@;
        proof {
            lemma_put_sorted(before, key@, entry@);
            lemma_rank(before, key@);
        }
        let ghost after = put(before, key@, entry@);
        let mut taken = ScanState::new();
        std::mem::swap(self, &mut taken);
        let mut dirs = taken.dirs;
        assert(dirs@.map_values(|e: (String, DirEntry)| record_of(e)) =~= before);
        if found {
            dirs.set(i, (key, entry));
        } else {
            dirs.insert(i, (key, entry));
        }
        assert(dirs@.map_values(|e: (String, DirEntry)| record_of(e)) =~= after);
        *self = ScanState { dirs };
    }
}

impl ScanState {
    /// Drops every record whose path is not in `keep`; returns how many
    /// were dropped.
    pub fn retain_paths(&mut self, keep: &PathSet) -> (removed: usize)
        ensures
            final(self)@ == retain(old(self)@, keep@.to_set()),
            removed == old(self)@.len() - final(self)@.len(),
    {
        proof {
            use_type_invariant(&*self);
        }
        let ghost before = self@;
        let ghost pred = keep@.to_set();
        let mut taken = ScanState::new();
        std::mem::swap(self, &mut taken);
        let dirs = taken.dirs;
        assert(dirs@.map_values(|e: (String, DirEntry)| record_of(e)) =~= before);
        let total = dirs.len();
        let mut kept: Vec<(String, DirEntry)> = Vec::new();
        for e in it: dirs.into_iter()
            invariant
                it.seq().map_values(|e: (String, DirEntry)| record_of(e)) == before,
                pred == keep@.to_set(),
                kept@.map_values(|e: (String, DirEntry)| record_of(e)) == retain(
                    before.take(it.index()),
                    pred,
                ),
        {
            let ghost i = it.index();
            assert(before.take(i + 1).drop_last() =~= before.take(i));
            assert(record_of(e) == before[i]);
            assert(before.take(i + 1).last() == before[i]);
            assert(pred.contains(before[i].0) == keep@.contains(before[i].0));
            assert(retain(before.take(i + 1), pred) == if pred.contains(before[i].0) {
                retain(before.take(i), pred).push(before[i])
            } else {
                retain(before.take(i), pred)
            });
            if keep.contains(e.0.as_str()) {
                let ghost old_kept = kept@;
                kept.push(e);
                assert(kept@.map_values(|e: (String, DirEntry)| record_of(e)) =~= old_kept.map_values(
                    |e: (String, DirEntry)| record_of(e),
                ).push(before[i]));
            }
        }
        assert(before.take(before.len() as int) =~= before);
        proof {
            lemma_retain(before, pred);
        }
        assert(kept@.map_values(|e: (String, DirEntry)| record_of(e)).len() == kept@.len());
        let removed = total - kept.len();
        *self = ScanState { dirs: kept };
        removed
    }
}

/// The records of path and entry pairs.
pub open spec fn records_of(v: Seq<(String, DirEntry)>) -> Seq<Record> {
    v.map_values(|e: (String, DirEntry)| record_of(e))
}

/// Records in path order, a path possibly repeated.
pub open spec fn keys_ordered(s: Seq<Record>) -> bool {
    forall|i: int, j: int| 0 <= i < j < s.len() ==> !text_less(#[trigger] s[j].0, #[trigger] s[i].0)
}

/// Whether `a` comes after `b` in the path order.
fn key_after(a: &(String, DirEntry), b: &(String, DirEntry)) -> (r: bool)
    ensures
        r == text_less(b.0@, a.0@),
{
    match compare_text(a.0.as_str(), b.0.as_str()) {
        Ordering::Greater => true,
        _ => false,
    }
}

/// The records of `a` and `b`, both in path order, merged in path order.
fn merge_records(a: Vec<(String, DirEntry)>, b: Vec<(String, DirEntry)>) -> (r: Vec<
    (String, DirEntry),
>)
    requires
        keys_ordered(records_of(a@)),
        keys_ordered(records_of(b@)),
    ensures
        keys_ordered(records_of(r@)),
        records_of(r@).to_multiset() == records_of(a@).to_multiset().add(
            records_of(b@).to_multiset(),
        ),
{
    broadcast use vstd::seq_lib::group_to_multiset_ensures;

    let ghost total = records_of(a@).to_multiset().add(records_of(b@).to_multiset());
    let mut a = a;
    let mut b = b;
    let mut rev: Vec<(String, DirEntry)> = Vec::new();
    assert(records_of(rev@) =~= Seq::<Record>::empty());
    while a.len() > 0 || b.len() > 0
        invariant
            keys_ordered(records_of(a@)),
            keys_ordered(records_of(b@)),
            forall|i: int, j: int|
                0 <= i < j < rev@.len() ==> !text_less(#[trigger] rev@[i].0@, #[trigger] rev@[j].0@),
            rev@.len() > 0 ==> forall|i: int|
                0 <= i < a@.len() ==> !text_less(rev@.last().0@, #[trigger] a@[i].0@),
            rev@.len() > 0 ==> forall|i: int|
                0 <= i < b@.len() ==> !text_less(rev@.last().0@, #[trigger] b@[i].0@),
            records_of(rev@).to_multiset().add(records_of(a@).to_multiset()).add(
                records_of(b@).to_multiset(),
            ) == total,
        decreases a@.len() + b@.len(),
    {
        let take_a = if a.len() == 0 {
            false
        } else if b.len() == 0 {
            true
        } else {
            !key_after(&b[b.len() - 1], &a[a.len() - 1])
        };
        let ghost ra = records_of(a@);
        let ghost rb = records_of(b@);
        let ghost rr = records_of(rev@);
        let ghost old_a = a@;
        let ghost old_b = b@;
        proof {
            if a@.len() > 0 {
                assert(ra.last() == record_of(a@.last()));
            }
            if b@.len() > 0 {
                assert(rb.last() == record_of(b@.last()));
            }
        }
        let x = if take_a {
            a.pop().unwrap()
        } else {
            b.pop().unwrap()
        };
        proof {
            let ghost xk = x.0@;
            if take_a {
                assert(records_of(a@) =~= ra.drop_last());
                assert(ra =~= ra.drop_last().push(record_of(x)));
                assert forall|i: int| 0 <= i < a@.len() implies !text_less(xk, #[trigger] a@[i].0@) by {
                    assert(a@[i] == old_a[i]);
                    assert(ra[i] == record_of(old_a[i]));
                    assert(ra[ra.len() - 1] == record_of(x));
                    assert(!text_less(ra[ra.len() - 1].0, ra[i].0));
                }
                assert forall|i: int| 0 <= i < b@.len() implies !text_less(xk, #[trigger] b@[i].0@) by {
                    assert(rb[i] == record_of(b@[i]));
                    assert(rb[rb.len() - 1] == record_of(b@.last()));
                    if i < b@.len() - 1 {
                        assert(!text_less(rb[rb.len() - 1].0, rb[i].0));
                    } else {
                        lemma_text_less_irreflexive(b@[i].0@);
                    }
                    lemma_text_le_transitive(b@[i].0@, b@.last().0@, xk);
                }
            } else {
                assert(records_of(b@) =~= rb.drop_last());
                assert(rb =~= rb.drop_last().push(record_of(x)));
                assert forall|i: int| 0 <= i < b@.len() implies !text_less(xk, #[trigger] b@[i].0@) by {
                    assert(b@[i] == old_b[i]);
                    assert(rb[i] == record_of(old_b[i]));
                    assert(rb[rb.len() - 1] == record_of(x));
                    assert(!text_less(rb[rb.len() - 1].0, rb[i].0));
                }
                assert forall|i: int| 0 <= i < a@.len() implies !text_less(xk, #[trigger] a@[i].0@) by {
                    assert(ra[i] == record_of(a@[i]));
                    assert(ra[ra.len() - 1] == record_of(a@.last()));
                    if i < a@.len() - 1 {
                        assert(!text_less(ra[ra.len() - 1].0, ra[i].0));
                    } else {
                        lemma_text_less_irreflexive(a@[i].0@);
                    }
                    crate::text::lemma_text_less_asymmetric(a@.last().0@, xk);
                    lemma_text_le_transitive(a@[i].0@, a@.last().0@, xk);
                }
            }
            if rev@.len() > 0 {
                if take_a {
                    assert(ra[ra.len() - 1] == record_of(x));
                } else {
                    assert(rb[rb.len() - 1] == record_of(x));
                }
            }
            assert(keys_ordered(records_of(a@))) by {
                assert forall|i: int, j: int| 0 <= i < j < records_of(a@).len() implies !text_less(
                    #[trigger] records_of(a@)[j].0,
                    #[trigger] records_of(a@)[i].0,
                ) by {
                    assert(records_of(a@)[i] == ra[i] && records_of(a@)[j] == ra[j]);
                }
            }
            assert(keys_ordered(records_of(b@))) by {
                assert forall|i: int, j: int| 0 <= i < j < records_of(b@).len() implies !text_less(
                    #[trigger] records_of(b@)[j].0,
                    #[trigger] records_of(b@)[i].0,
                ) by {
                    assert(records_of(b@)[i] == rb[i] && records_of(b@)[j] == rb[j]);
                }
            }
        }
        let ghost before_rev = rev@;
        let ghost xr = record_of(x);
        rev.push(x);
        proof {
            assert(records_of(rev@) =~= rr.push(xr));
            vstd::seq_lib::to_multiset_build(rr, xr);
            if take_a {
                vstd::seq_lib::to_multiset_build(ra.drop_last(), xr);
                assert(records_of(rev@).to_multiset().add(records_of(a@).to_multiset()).add(
                    records_of(b@).to_multiset(),
                ) =~= total);
            } else {
                vstd::seq_lib::to_multiset_build(rb.drop_last(), xr);
                assert(records_of(rev@).to_multiset().add(records_of(a@).to_multiset()).add(
                    records_of(b@).to_multiset(),
                ) =~= total);
            }
            assert forall|i: int, j: int| 0 <= i < j < rev@.len() implies !text_less(
                #[trigger] rev@[i].0@,
                #[trigger] rev@[j].0@,
            ) by {
                if j == rev@.len() - 1 && i < j {
                    assert(rev@[i] == before_rev[i]);
                    if i < before_rev.len() - 1 {
                        lemma_text_le_transitive(x.0@, before_rev.last().0@, before_rev[i].0@);
                    }
                }
            }
        }
    }
    assert(records_of(a@) =~= Seq::<Record>::empty());
    assert(records_of(b@) =~= Seq::<Record>::empty());
    let ghost full = records_of(rev@);
    let mut out: Vec<(String, DirEntry)> = Vec::new();
    assert(records_of(out@) =~= Seq::<Record>::empty());
    while rev.len() > 0
        invariant
            forall|i: int, j: int|
                0 <= i < j < rev@.len() ==> !text_less(#[trigger] rev@[i].0@, #[trigger] rev@[j].0@),
            keys_ordered(records_of(out@)),
            out@.len() > 0 ==> forall|i: int|
                0 <= i < rev@.len() ==> !text_less(#[trigger] rev@[i].0@, out@.last().0@),
            records_of(out@).to_multiset().add(records_of(rev@).to_multiset()) == total,
        decreases rev@.len(),
    {
        let ghost rr = records_of(rev@);
        let ghost ro = records_of(out@);
        let ghost before = rev@;
        let x = rev.pop().unwrap();
        let ghost xr = record_of(x);
        proof {
            assert(records_of(rev@) =~= rr.drop_last());
            assert(rr =~= rr.drop_last().push(xr));
            vstd::seq_lib::to_multiset_build(rr.drop_last(), xr);
            vstd::seq_lib::to_multiset_build(ro, xr);
        }
        out.push(x);
        proof {
            assert(records_of(out@) =~= ro.push(xr));
            assert(records_of(out@).to_multiset().add(records_of(rev@).to_multiset()) =~= total);
            assert forall|i: int, j: int| 0 <= i < j < records_of(out@).len() implies !text_less(
                #[trigger] records_of(out@)[j].0,
                #[trigger] records_of(out@)[i].0,
            ) by {
                if j == records_of(out@).len() - 1 {
                    assert(records_of(out@)[i] == ro[i]);
                    assert(ro[ro.len() - 1] == record_of(out@[ro.len() - 1]));
                    if i < ro.len() - 1 {
                        lemma_text_le_transitive(ro[i].0, ro.last().0, x.0@);
                    }
                } else {
                    assert(records_of(out@)[i] == ro[i] && records_of(out@)[j] == ro[j]);
                }
            }
            assert forall|i: int| 0 <= i < rev@.len() implies !text_less(
                #[trigger] rev@[i].0@,
                out@.last().0@,
            ) by {
                assert(rev@[i] == before[i]);
            }
        }
    }
    assert(records_of(rev@) =~= Seq::<Record>::empty());
    out
}

/// The records in path order; the same records, only reordered.
fn sort_records(v: Vec<(String, DirEntry)>) -> (r: Vec<(String, DirEntry)>)
    ensures
        keys_ordered(records_of(r@)),
        records_of(r@).to_multiset() == records_of(v@).to_multiset(),
    decreases v@.len(),
{
    if v.len() <= 1 {
        return v;
    }
    let mut left = v;
    let ghost whole = records_of(left@);
    let right = left.split_off(left.len() / 2);
    proof {
        assert(whole =~= records_of(left@) + records_of(right@));
        vstd::seq_lib::lemma_multiset_commutative(records_of(left@), records_of(right@));
    }
    let a = sort_records(left);
    let b = sort_records(right);
    merge_records(a, b)
}

/// What loading a state file gave.
#[derive(Debug)]
pub enum LoadOutcome {
    /// The file held a valid state.
    Loaded(ScanState),
    /// There is no state file: a fresh start.
    NotFound,
    /// The file exists but cannot be trusted; the reason.
    Invalid(String),
}

impl LoadOutcome {
    /// The index to scan with: the loaded one, else an empty one; and, when
    /// the file was rejected, the reason to warn about.
    pub fn into_state(self) -> (r: (ScanState, Option<String>))
        ensures
            self matches LoadOutcome::Loaded(s) ==> r.0@ == s@ && r.1 is None,
            self is NotFound ==> r.0@ == Seq::<Record>::empty() && r.1 is None,
            self matches LoadOutcome::Invalid(m) ==> r.0@ == Seq::<Record>::empty() && r.1
                == Some(m),
    {
        match self {
            LoadOutcome::Loaded(s) => (s, None),
            LoadOutcome::NotFound => (ScanState::new(), None),
            LoadOutcome::Invalid(m) => (ScanState::new(), Some(m)),
        }
    }
}

impl ScanState {
    /// An index holding the given records: every given path is recorded,
    /// with one of the records given for it.
    pub fn from_records(records: Vec<(String, DirEntry)>) -> (r: ScanState)
        ensures
            forall|k: Seq<char>|
                #[trigger] has_key(r@, k) <==> exists|i: int|
                    0 <= i < records@.len() && #[trigger] records@[i].0@ == k,
            forall|j: int| 0 <= j < r@.len() ==> records_of(records@).contains(#[trigger] r@[j]),
    {
        broadcast use vstd::seq_lib::group_to_multiset_ensures;

        let ghost input = records_of(records@);
        let sorted = sort_records(records);
        let ghost sq = records_of(sorted@);
        let mut dirs: Vec<(String, DirEntry)> = Vec::new();
        for e in it: sorted.into_iter()
            invariant
                records_of(it.seq()) == sq,
                keys_ordered(sq),
                well_sorted(records_of(dirs@)),
                forall|j: int| 0 <= j < dirs@.len() ==> sq.take(it.index()).contains(#[trigger] records_of(dirs@)[j]),
                forall|i: int| 0 <= i < it.index() ==> has_key(records_of(dirs@), #[trigger] sq[i].0),
                dirs@.len() > 0 ==> it.index() > 0 && dirs@.last().0@ == sq[it.index() - 1].0,
                it.index() > 0 ==> dirs@.len() > 0,
        {
            let ghost idx = it.index();
            let ghost before = records_of(dirs@);
            assert(record_of(e) == sq[idx]);
            assert(sq.take(idx + 1) =~= sq.take(idx).push(sq[idx]));
            if dirs.len() == 0 || key_after(&e, &dirs[dirs.len() - 1]) {
                dirs.push(e);
                proof {
                    let now = records_of(dirs@);
                    assert(now =~= before.push(sq[idx]));
                    assert forall|a: int, b: int| 0 <= a < b < now.len() implies text_less(
                        #[trigger] now[a].0,
                        #[trigger] now[b].0,
                    ) by {
                        if b == now.len() - 1 && a < b - 1 {
                            assert(text_less(before[a].0, before[b - 1].0));
                            assert(before[b - 1].0 == before.last().0);
                            lemma_text_less_transitive(before[a].0, before.last().0, sq[idx].0);
                        } else if b < now.len() - 1 {
                            assert(now[a] == before[a] && now[b] == before[b]);
                        }
                    }
                    assert forall|j: int| 0 <= j < now.len() implies sq.take(idx + 1).contains(
                        #[trigger] now[j],
                    ) by {
                        if j < before.len() {
                            assert(sq.take(idx).contains(before[j]));
                            let q = choose|q: int| 0 <= q < sq.take(idx).len() && sq.take(idx)[q] == before[j];
                            assert(sq.take(idx + 1)[q] == now[j]);
                        } else {
                            assert(sq.take(idx + 1)[idx] == now[j]);
                        }
                    }
                    assert forall|i: int| 0 <= i < idx + 1 implies has_key(now, #[trigger] sq[i].0) by {
                        if i < idx {
                            let q = index_of(before, sq[i].0);
                            assert(now[q] == before[q]);
                        } else {
                            assert(now[now.len() - 1].0 == sq[i].0);
                        }
                    }
                }
            } else {
                proof {
                    let last = before.last();
                    assert(last.0 == sq[idx - 1].0);
                    assert(!text_less(sq[idx].0, sq[idx - 1].0));
                    lemma_text_less_total(sq[idx].0, last.0);
                    assert(sq[idx].0 == last.0);
                    assert(before[before.len() - 1].0 == sq[idx].0);
                    assert forall|j: int| 0 <= j < before.len() implies sq.take(idx + 1).contains(
                        #[trigger] before[j],
                    ) by {
                        assert(sq.take(idx).contains(before[j]));
                        let q = choose|q: int| 0 <= q < sq.take(idx).len() && sq.take(idx)[q] == before[j];
                        assert(sq.take(idx + 1)[q] == before[j]);
                    }
                }
            }
        }
        proof {
            assert(sq.take(sq.len() as int) =~= sq);
            let fin = records_of(dirs@);
            assert forall|k: Seq<char>| #[trigger] has_key(fin, k) <==> exists|i: int|
                0 <= i < records@.len() && #[trigger] records@[i].0@ == k by {
                if has_key(fin, k) {
                    let j = index_of(fin, k);
                    assert(sq.contains(fin[j]));
                    assert(input.to_multiset().count(fin[j]) > 0);
                    assert(input.contains(fin[j]));
                    let i = choose|i: int| 0 <= i < input.len() && input[i] == fin[j];
                    assert(records@[i].0@ == k);
                }
                if exists|i: int| 0 <= i < records@.len() && #[trigger] records@[i].0@ == k {
                    let i = choose|i: int| 0 <= i < records@.len() && #[trigger] records@[i].0@ == k;
                    assert(input[i].0 == k);
                    assert(input.contains(input[i]));
                    assert(sq.to_multiset().count(input[i]) > 0);
                    assert(sq.contains(input[i]));
                    let q = choose|q: int| 0 <= q < sq.len() && sq[q] == input[i];
                    assert(has_key(fin, sq[q].0));
                }
            }
            assert forall|j: int| 0 <= j < fin.len() implies input.contains(#[trigger] fin[j]) by {
                assert(sq.contains(fin[j]));
                assert(sq.to_multiset().count(fin[j]) > 0);
            }
        }
        let r = ScanState { dirs };
        assert(r@ == records_of(r.dirs@));
        r
    }
}

impl Default for ScanState {
    fn default() -> (r: ScanState)
        ensures
            r@ == Seq::<Record>::empty(),
    {
        ScanState::new()
    }
}

} // verus!
