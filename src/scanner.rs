//! The scan engine's decisions. A walk of the directory tree reports each
//! directory it reaches to a `ScanSession`, which says whether the cached
//! record is still current; the caller reads a directory's files only when
//! it is not, and hands them to `store_listing`. `finish` then prunes every
//! record whose directory the walk did not reach.

use crate::paths::PathSet;
use crate::state::{
    file_infos, has_key, info_of, lemma_put_sorted, lemma_retain, put, retain, well_sorted,
    DirEntry, DirInfo, FileEntry, FileInfo, Record, ScanState,
};
use crate::text::{lemma_text_less_asymmetric, lemma_text_less_total, lemma_text_less_transitive, text_less};
use vstd::prelude::*;

verus! {

broadcast use vstd::seq_lib::group_to_multiset_ensures;

/// What a scan did: directories served from the cache, directories read
/// afresh, and records pruned because their directory was not reached.
#[derive(Debug)]
pub struct ScanStats {
    pub dirs_cached: usize,
    pub dirs_scanned: usize,
    pub dirs_removed: usize,
}

/// Whether `name` is one of the excluded directory names (an exact match).
pub fn is_excluded(name: &str, exclude: &[String]) -> (r: bool)
    ensures
        r == exists|i: int| 0 <= i < exclude@.len() && #[trigger] exclude@[i]@ == name@,
{
    let mut i: usize = 0;
    while i < exclude.len()
        invariant
            i <= exclude@.len(),
            forall|j: int| 0 <= j < i ==> #[trigger] exclude@[j]@ != name@,
        decreases exclude@.len() - i,
    {
        if let std::cmp::Ordering::Equal = crate::text::compare_text(exclude[i].as_str(), name) {
            return true;
        }
        i = i + 1;
    }
    false
}

/// Files in name order: no file has a name before that of a file ahead of it.
pub open spec fn names_sorted(files: Seq<FileInfo>) -> bool {
    forall|i: int, j: int|
        0 <= i < j < files.len() ==> !text_less(
            #[trigger] files[j].filename,
            #[trigger] files[i].filename,
        )
}

/// The first position of the sorted `files` whose name comes after `name`.
fn upper_position(files: &Vec<FileEntry>, name: &str) -> (p: usize)
    requires
        names_sorted(file_infos(files@)),
    ensures
        p <= files@.len(),
        forall|j: int| 0 <= j < p ==> !text_less(name@, #[trigger] files@[j].filename@),
        forall|j: int| p <= j < files@.len() ==> text_less(name@, #[trigger] files@[j].filename@),
{
    let ghost fs = file_infos(files@);
    let mut lo: usize = 0;
    let mut hi: usize = files.len();
    while lo < hi
        invariant
            lo <= hi <= files@.len(),
            fs == file_infos(files@),
            names_sorted(fs),
            forall|j: int| 0 <= j < lo ==> !text_less(name@, #[trigger] files@[j].filename@),
            forall|j: int| hi <= j < files@.len() ==> text_less(name@, #[trigger] files@[j].filename@),
        decreases hi - lo,
    {
        let mid = lo + (hi - lo) / 2;
        let m = files[mid].filename.as_str();
        let later = match crate::text::compare_text(name, m) {
            std::cmp::Ordering::Less => true,
            _ => false,
        };
        if later {
            proof {
                assert forall|j: int| mid <= j < files@.len() implies text_less(
                    name@,
                    #[trigger] files@[j].filename@,
                ) by {
                    if j > mid {
                        assert(fs[mid as int].filename == files@[mid as int].filename@);
                        assert(fs[j].filename == files@[j].filename@);
                        assert(!text_less(fs[j].filename, fs[mid as int].filename));
                        lemma_text_less_total(files@[j].filename@, files@[mid as int].filename@);
                        if files@[j].filename@ != files@[mid as int].filename@ {
                            lemma_text_less_transitive(
                                name@,
                                files@[mid as int].filename@,
                                files@[j].filename@,
                            );
                        }
                    }
                }
            }
            hi = mid;
        } else {
            proof {
                assert forall|j: int| 0 <= j <= mid implies !text_less(
                    name@,
                    #[trigger] files@[j].filename@,
                ) by {
                    if j < mid && text_less(name@, files@[j].filename@) {
                        assert(fs[mid as int].filename == files@[mid as int].filename@);
                        assert(fs[j].filename == files@[j].filename@);
                        assert(!text_less(fs[mid as int].filename, fs[j].filename));
                        lemma_text_less_total(files@[j].filename@, files@[mid as int].filename@);
                        if files@[j].filename@ != files@[mid as int].filename@ {
                            lemma_text_less_transitive(
                                name@,
                                files@[j].filename@,
                                files@[mid as int].filename@,
                            );
                        }
                    }
                }
            }
            lo = mid + 1;
        }
    }
    lo
}

/// The files in name order; the same files, only reordered.
pub fn sort_files(files: Vec<FileEntry>) -> (r: Vec<FileEntry>)
    ensures
        names_sorted(file_infos(r@)),
        file_infos(r@).to_multiset() == file_infos(files@).to_multiset(),
{
    let ghost input = file_infos(files@);
    let mut out: Vec<FileEntry> = Vec::new();
    for f in it: files.into_iter()
        invariant
            file_infos(it.seq()) == input,
            names_sorted(file_infos(out@)),
            file_infos(out@).to_multiset() == input.take(it.index()).to_multiset(),
    {
        let ghost i = it.index();
        let ghost before = file_infos(out@);
        assert(f@ == input[i]);
        let pos = upper_position(&out, f.filename.as_str());
        out.insert(pos, f);
        proof {
            let after = file_infos(out@);
            assert(after =~= before.insert(pos as int, input[i]));
            assert(input.take(i + 1) =~= input.take(i).push(input[i]));
            assert forall|a: int, b: int| 0 <= a < b < after.len() implies !text_less(
                #[trigger] after[b].filename,
                #[trigger] after[a].filename,
            ) by {
                let p = pos as int;
                if b < p {
                    assert(after[a] == before[a] && after[b] == before[b]);
                } else if b == p {
                    assert(after[a] == before[a]);
                } else if a < p {
                    assert(after[a] == before[a] && after[b] == before[b - 1]);
                } else if a == p {
                    assert(after[b] == before[b - 1]);
                    assert(before[b - 1].filename == out@[b].filename@);
                    lemma_text_less_asymmetric(input[i].filename, before[b - 1].filename);
                } else {
                    assert(after[a] == before[a - 1] && after[b] == before[b - 1]);
                }
            }
        }
    }
    assert(input.take(input.len() as int) =~= input);
    out
}

/// Whether the record cached for `path` was taken at modification time `mtime`.
pub open spec fn is_hit(records: Seq<Record>, path: Seq<char>, mtime: i64) -> bool {
    has_key(records, path) && info_of(records, path).dir_mtime == mtime
}

/// Records the freshly read `files` of the directory at `path`, whose
/// modification time is `mtime`, replacing what was cached for it. The files
/// are stored in name order.
pub fn store_listing(state: &mut ScanState, path: String, mtime: i64, files: Vec<FileEntry>)
    ensures
        final(state)@ == put(
            old(state)@,
            path@,
            DirInfo { dir_mtime: mtime, files: info_of(final(state)@, path@).files },
        ),
        names_sorted(info_of(final(state)@, path@).files),
        info_of(final(state)@, path@).files.to_multiset() == file_infos(files@).to_multiset(),
{
    let ghost before = state@;
    proof {
        use_type_invariant(&*state);
    }
    let sorted = sort_files(files);
    let entry = DirEntry { dir_mtime: mtime, files: sorted };
    let ghost info = entry@;
    state.insert(path, entry);
    proof {
        crate::state::lemma_put_sorted(before, path@, info);
    }
}

/// The decisions of one scan, made as a walk reports directories.
pub struct ScanSession {
    seen: PathSet,
    cached: usize,
    scanned: usize,
}

impl ScanSession {
    #[verifier::type_invariant]
    spec fn counts_fit(&self) -> bool {
        self.cached + self.scanned <= usize::MAX
    }

    /// The paths reported so far.
    pub closed spec fn visited(&self) -> Set<Seq<char>> {
        self.seen@.to_set()
    }

    /// Directories found current in the cache so far.
    pub closed spec fn cached_count(&self) -> nat {
        self.cached as nat
    }

    /// Directories found changed or new so far.
    pub closed spec fn scanned_count(&self) -> nat {
        self.scanned as nat
    }

    /// A session before the walk reports anything.
    pub fn new() -> (r: ScanSession)
        ensures
            r.visited() == Set::<Seq<char>>::empty(),
            r.cached_count() == 0,
            r.scanned_count() == 0,
    {
        let r = ScanSession { seen: PathSet::new(), cached: 0, scanned: 0 };
        assert(r.visited() =~= Set::<Seq<char>>::empty());
        r
    }

    /// How many directories were reported so far.
    pub fn visit_count(&self) -> (r: usize)
        ensures
            r == self.cached_count() + self.scanned_count(),
    {
        proof {
            use_type_invariant(self);
        }
        self.cached + self.scanned
    }

    /// The walk reached the directory at `path`, whose modification time is
    /// now `mtime`. Returns whether the cached record is current; when it is
    /// not, the directory's files must be read and given to `store_listing`.
    pub fn visit(&mut self, state: &ScanState, path: String, mtime: i64) -> (hit: bool)
        requires
            old(self).cached_count() + old(self).scanned_count() < usize::MAX,
        ensures
            hit == is_hit(state@, path@, mtime),
            final(self).visited() == old(self).visited().insert(path@),
            hit ==> final(self).cached_count() == old(self).cached_count() + 1
                && final(self).scanned_count() == old(self).scanned_count(),
            !hit ==> final(self).scanned_count() == old(self).scanned_count() + 1
                && final(self).cached_count() == old(self).cached_count(),
    {
        let hit = match state.get(path.as_str()) {
            Some(entry) => entry.dir_mtime == mtime,
            None => false,
        };
        let mut seen = PathSet::new();
        std::mem::swap(&mut seen, &mut self.seen);
        seen.insert(path);
        if hit {
            *self = ScanSession { seen, cached: self.cached + 1, scanned: self.scanned };
        } else {
            *self = ScanSession { seen, cached: self.cached, scanned: self.scanned + 1 };
        }
        hit
    }

    /// Ends the scan: prunes every record whose directory was not reported,
    /// and returns the counts.
    pub fn finish(self, state: &mut ScanState) -> (stats: ScanStats)
        ensures
            final(state)@ == retain(old(state)@, self.visited()),
            stats.dirs_cached == self.cached_count(),
            stats.dirs_scanned == self.scanned_count(),
            stats.dirs_removed == old(state)@.len() - final(state)@.len(),
    {
        let removed = state.retain_paths(&self.seen);
        ScanStats { dirs_cached: self.cached, dirs_scanned: self.scanned, dirs_removed: removed }
    }
}

/// A directory as a walk reports it: its path, its modification time now,
/// and the files a fresh read of it would store.
pub struct DirVisit {
    pub path: Seq<char>,
    pub mtime: i64,
    pub files: Seq<FileInfo>,
}

/// The index after the walk, and how many directories were found current
/// and how many changed or new.
pub struct WalkResult {
    pub records: Seq<Record>,
    pub cached: nat,
    pub scanned: nat,
}

/// The walk part of a scan, as `visit` and `store_listing` do it: a
/// directory whose record is current is left alone, any other is recorded
/// afresh.
pub open spec fn walk(records: Seq<Record>, visits: Seq<DirVisit>) -> WalkResult
    decreases visits.len(),
{
    if visits.len() == 0 {
        WalkResult { records, cached: 0, scanned: 0 }
    } else {
        let w = walk(records, visits.drop_last());
        let v = visits.last();
        if is_hit(w.records, v.path, v.mtime) {
            WalkResult { records: w.records, cached: w.cached + 1, scanned: w.scanned }
        } else {
            WalkResult {
                records: put(w.records, v.path, DirInfo { dir_mtime: v.mtime, files: v.files }),
                cached: w.cached,
                scanned: w.scanned + 1,
            }
        }
    }
}

/// The paths a walk reported.
pub open spec fn visited_paths(visits: Seq<DirVisit>) -> Set<Seq<char>> {
    visits.map_values(|v: DirVisit| v.path).to_set()
}

/// A walk reports each directory once.
pub open spec fn distinct_paths(visits: Seq<DirVisit>) -> bool {
    forall|i: int, j: int|
        0 <= i < j < visits.len() ==> #[trigger] visits[i].path != #[trigger] visits[j].path
}

/// A whole scan: the index it leaves and its counts.
pub struct ScanOutcome {
    pub records: Seq<Record>,
    pub cached: nat,
    pub scanned: nat,
    pub removed: nat,
}

/// A whole scan of `visits` starting from the index `records`: the walk,
/// then the pruning of every record whose directory was not reported, as
/// `finish` does it.
pub open spec fn scan_outcome(records: Seq<Record>, visits: Seq<DirVisit>) -> ScanOutcome {
    let w = walk(records, visits);
    let kept = retain(w.records, visited_paths(visits));
    ScanOutcome {
        records: kept,
        cached: w.cached,
        scanned: w.scanned,
        removed: (w.records.len() - kept.len()) as nat,
    }
}

proof fn lemma_visited(visits: Seq<DirVisit>, k: Seq<char>)
    ensures
        visited_paths(visits).contains(k) <==> exists|i: int|
            0 <= i < visits.len() && #[trigger] visits[i].path == k,
{
    let ps = visits.map_values(|v: DirVisit| v.path);
    if visited_paths(visits).contains(k) {
        let i = choose|i: int| 0 <= i < ps.len() && ps[i] == k;
        assert(visits[i].path == k);
    }
    if exists|i: int| 0 <= i < visits.len() && #[trigger] visits[i].path == k {
        let i = choose|i: int| 0 <= i < visits.len() && #[trigger] visits[i].path == k;
        assert(ps[i] == k);
    }
}

/// What a walk does to the index.
proof fn lemma_walk(records: Seq<Record>, visits: Seq<DirVisit>)
    requires
        well_sorted(records),
        distinct_paths(visits),
    ensures
        well_sorted(walk(records, visits).records),
        walk(records, visits).cached + walk(records, visits).scanned == visits.len(),
        forall|i: int|
            0 <= i < visits.len() ==> is_hit(
                walk(records, visits).records,
                #[trigger] visits[i].path,
                visits[i].mtime,
            ),
        forall|k: Seq<char>|
            #[trigger] has_key(walk(records, visits).records, k) <==> (has_key(records, k)
                || visited_paths(visits).contains(k)),
        forall|k: Seq<char>|
            !visited_paths(visits).contains(k) && has_key(records, k) ==> #[trigger] info_of(
                walk(records, visits).records,
                k,
            ) == info_of(records, k),
    decreases visits.len(),
{
    if visits.len() > 0 {
        let init = visits.drop_last();
        let v = visits.last();
        assert(distinct_paths(init));
        lemma_walk(records, init);
        let w = walk(records, init);
        let info = DirInfo { dir_mtime: v.mtime, files: v.files };
        lemma_put_sorted(w.records, v.path, info);
        let r = walk(records, visits).records;
        assert forall|k: Seq<char>| #[trigger]
            visited_paths(visits).contains(k) <==> (visited_paths(init).contains(k) || k
                == v.path) by {
            lemma_visited(visits, k);
            lemma_visited(init, k);
            if visited_paths(visits).contains(k) {
                let i = choose|i: int| 0 <= i < visits.len() && #[trigger] visits[i].path == k;
                if i < init.len() {
                    assert(init[i].path == k);
                }
            }
            if visited_paths(init).contains(k) {
                let i = choose|i: int| 0 <= i < init.len() && #[trigger] init[i].path == k;
                assert(visits[i].path == k);
            }
            if k == v.path {
                assert(visits[visits.len() - 1].path == k);
            }
        }
        assert forall|i: int| 0 <= i < visits.len() implies is_hit(
            r,
            #[trigger] visits[i].path,
            visits[i].mtime,
        ) by {
            if i < init.len() {
                assert(init[i] == visits[i]);
                assert(is_hit(w.records, init[i].path, init[i].mtime));
                assert(visits[i].path != v.path);
            }
        }
        assert forall|k: Seq<char>|
            !visited_paths(visits).contains(k) && has_key(records, k) implies #[trigger] info_of(
            r,
            k,
        ) == info_of(records, k) by {
            assert(visited_paths(visits).contains(k) <==> (visited_paths(init).contains(k) || k
                == v.path));
            assert(has_key(w.records, k));
        }
        assert forall|k: Seq<char>| #[trigger] has_key(r, k) <==> (has_key(records, k)
            || visited_paths(visits).contains(k)) by {
            assert(visited_paths(visits).contains(k) <==> (visited_paths(init).contains(k) || k
                == v.path));
            assert(has_key(w.records, k) <==> (has_key(records, k) || visited_paths(
                init,
            ).contains(k)));
        }
    } else {
        assert forall|k: Seq<char>| #[trigger] has_key(walk(records, visits).records, k) <==> (
        has_key(records, k) || visited_paths(visits).contains(k)) by {
            lemma_visited(visits, k);
        }
    }
}

/// Once every reported directory is current in the index, a walk finds
/// them all in the cache and changes nothing.
proof fn lemma_walk_all_hits(records: Seq<Record>, visits: Seq<DirVisit>)
    requires
        forall|i: int|
            0 <= i < visits.len() ==> is_hit(records, #[trigger] visits[i].path, visits[i].mtime),
    ensures
        walk(records, visits).records == records,
        walk(records, visits).cached == visits.len(),
        walk(records, visits).scanned == 0,
    decreases visits.len(),
{
    if visits.len() > 0 {
        let init = visits.drop_last();
        assert forall|i: int| 0 <= i < init.len() implies is_hit(
            records,
            #[trigger] init[i].path,
            init[i].mtime,
        ) by {
            assert(init[i] == visits[i]);
        }
        lemma_walk_all_hits(records, init);
        assert(visits.last() == visits[visits.len() - 1]);
    }
}

/// Pruning keeps everything when every path is to be kept.
proof fn lemma_retain_all(records: Seq<Record>, keep: Set<Seq<char>>)
    requires
        forall|i: int| 0 <= i < records.len() ==> keep.contains(#[trigger] records[i].0),
    ensures
        retain(records, keep) == records,
    decreases records.len(),
{
    if records.len() > 0 {
        let init = records.drop_last();
        assert forall|i: int| 0 <= i < init.len() implies keep.contains(#[trigger] init[i].0) by {
            assert(init[i] == records[i]);
        }
        lemma_retain_all(init, keep);
        assert(keep.contains(records[records.len() - 1].0));
        assert(init.push(records.last()) =~= records);
    }
}

/// Every record of the index a scan leaves is of a reported directory, and
/// every reported directory has one: the records of directories that were
/// not reached (removed, moved, or newly excluded from the walk) are gone,
/// and `removed` counts them.
pub proof fn lemma_scan_prunes_unreached(records: Seq<Record>, visits: Seq<DirVisit>)
    requires
        well_sorted(records),
        distinct_paths(visits),
    ensures
        well_sorted(scan_outcome(records, visits).records),
        forall|k: Seq<char>|
            #[trigger] has_key(scan_outcome(records, visits).records, k) <==> visited_paths(
                visits,
            ).contains(k),
        scan_outcome(records, visits).removed == walk(records, visits).records.len() - scan_outcome(
            records,
            visits,
        ).records.len(),
        forall|k: Seq<char>|
            has_key(walk(records, visits).records, k) && !visited_paths(visits).contains(k)
                ==> !has_key(scan_outcome(records, visits).records, k),
        scan_outcome(records, visits).cached + scan_outcome(records, visits).scanned
            == visits.len(),
{
    lemma_walk(records, visits);
    let w = walk(records, visits);
    lemma_retain(w.records, visited_paths(visits));
    crate::state::lemma_retain_len(w.records, visited_paths(visits));
}

/// Scanning an unchanged tree a second time finds every directory in the
/// cache: nothing is read afresh, nothing is pruned, and the index stays
/// as the first scan left it.
pub proof fn lemma_rescan_unchanged_all_cached(records: Seq<Record>, visits: Seq<DirVisit>)
    requires
        well_sorted(records),
        distinct_paths(visits),
    ensures
        scan_outcome(scan_outcome(records, visits).records, visits).scanned == 0,
        scan_outcome(scan_outcome(records, visits).records, visits).cached == visits.len(),
        scan_outcome(scan_outcome(records, visits).records, visits).removed == 0,
        scan_outcome(scan_outcome(records, visits).records, visits).records == scan_outcome(
            records,
            visits,
        ).records,
{
    lemma_walk(records, visits);
    let w = walk(records, visits);
    let keep = visited_paths(visits);
    lemma_retain(w.records, keep);
    let first = scan_outcome(records, visits).records;
    assert forall|i: int| 0 <= i < visits.len() implies is_hit(
        first,
        #[trigger] visits[i].path,
        visits[i].mtime,
    ) by {
        lemma_visited(visits, visits[i].path);
        assert(is_hit(w.records, visits[i].path, visits[i].mtime));
    }
    lemma_walk_all_hits(first, visits);
    assert forall|i: int| 0 <= i < first.len() implies keep.contains(#[trigger] first[i].0) by {
        assert(has_key(first, first[i].0));
    }
    lemma_retain_all(first, keep);
}

/// How many reported directories do not match their record in `records`.
pub open spec fn stale_count(records: Seq<Record>, visits: Seq<DirVisit>) -> nat
    decreases visits.len(),
{
    if visits.len() == 0 {
        0
    } else if is_hit(records, visits.last().path, visits.last().mtime) {
        stale_count(records, visits.drop_last())
    } else {
        stale_count(records, visits.drop_last()) + 1
    }
}

/// When every reported directory has a record, a walk reads afresh exactly
/// the directories whose record does not match.
proof fn lemma_walk_counts_stale(records: Seq<Record>, visits: Seq<DirVisit>)
    requires
        well_sorted(records),
        distinct_paths(visits),
        forall|i: int| 0 <= i < visits.len() ==> has_key(records, #[trigger] visits[i].path),
    ensures
        walk(records, visits).scanned == stale_count(records, visits),
        walk(records, visits).cached == visits.len() - stale_count(records, visits),
    decreases visits.len(),
{
    if visits.len() > 0 {
        let init = visits.drop_last();
        let v = visits.last();
        assert(distinct_paths(init));
        assert forall|i: int| 0 <= i < init.len() implies has_key(records, #[trigger] init[i].path) by {
            assert(init[i] == visits[i]);
        }
        lemma_walk_counts_stale(records, init);
        lemma_walk(records, init);
        lemma_visited(init, v.path);
        if visited_paths(init).contains(v.path) {
            let i = choose|i: int| 0 <= i < init.len() && #[trigger] init[i].path == v.path;
            assert(visits[i].path == visits[visits.len() - 1].path);
        }
        assert(has_key(records, visits[visits.len() - 1].path));
        assert(info_of(walk(records, init).records, v.path) == info_of(records, v.path));
        lemma_stale_count_bound(records, init);
    }
}

proof fn lemma_stale_count_bound(records: Seq<Record>, visits: Seq<DirVisit>)
    ensures
        stale_count(records, visits) <= visits.len(),
    decreases visits.len(),
{
    if visits.len() > 0 {
        lemma_stale_count_bound(records, visits.drop_last());
    }
}

proof fn lemma_stale_count_one(records: Seq<Record>, visits: Seq<DirVisit>, j: int)
    requires
        0 <= j < visits.len(),
        forall|i: int|
            0 <= i < visits.len() && i != j ==> is_hit(
                records,
                #[trigger] visits[i].path,
                visits[i].mtime,
            ),
        !is_hit(records, visits[j].path, visits[j].mtime),
    ensures
        stale_count(records, visits) == 1,
    decreases visits.len(),
{
    let init = visits.drop_last();
    if j < visits.len() - 1 {
        assert forall|i: int| 0 <= i < init.len() && i != j implies is_hit(
            records,
            #[trigger] init[i].path,
            init[i].mtime,
        ) by {
            assert(init[i] == visits[i]);
        }
        assert(init[j] == visits[j]);
        lemma_stale_count_one(records, init, j);
        assert(is_hit(records, visits[visits.len() - 1].path, visits[visits.len() - 1].mtime));
    } else {
        assert forall|i: int| 0 <= i < init.len() implies is_hit(
            records,
            #[trigger] init[i].path,
            init[i].mtime,
        ) by {
            assert(init[i] == visits[i]);
        }
        lemma_walk_all_hits_count(records, init);
    }
}

proof fn lemma_walk_all_hits_count(records: Seq<Record>, visits: Seq<DirVisit>)
    requires
        forall|i: int|
            0 <= i < visits.len() ==> is_hit(records, #[trigger] visits[i].path, visits[i].mtime),
    ensures
        stale_count(records, visits) == 0,
    decreases visits.len(),
{
    if visits.len() > 0 {
        let init = visits.drop_last();
        assert forall|i: int| 0 <= i < init.len() implies is_hit(
            records,
            #[trigger] init[i].path,
            init[i].mtime,
        ) by {
            assert(init[i] == visits[i]);
        }
        lemma_walk_all_hits_count(records, init);
        assert(visits.last() == visits[visits.len() - 1]);
    }
}

/// When every reported directory has a record, a walk leaves the record of
/// each current directory as it was and records each stale one afresh.
proof fn lemma_walk_records(records: Seq<Record>, visits: Seq<DirVisit>)
    requires
        well_sorted(records),
        distinct_paths(visits),
        forall|i: int| 0 <= i < visits.len() ==> has_key(records, #[trigger] visits[i].path),
    ensures
        forall|i: int|
            0 <= i < visits.len() && is_hit(records, #[trigger] visits[i].path, visits[i].mtime)
                ==> info_of(walk(records, visits).records, visits[i].path) == info_of(
                records,
                visits[i].path,
            ),
        forall|i: int|
            0 <= i < visits.len() && !is_hit(records, #[trigger] visits[i].path, visits[i].mtime)
                ==> info_of(walk(records, visits).records, visits[i].path) == (DirInfo {
                dir_mtime: visits[i].mtime,
                files: visits[i].files,
            }),
    decreases visits.len(),
{
    if visits.len() > 0 {
        let init = visits.drop_last();
        let v = visits.last();
        let n = visits.len() - 1;
        assert(distinct_paths(init));
        assert forall|i: int| 0 <= i < init.len() implies has_key(records, #[trigger] init[i].path) by {
            assert(init[i] == visits[i]);
        }
        lemma_walk_records(records, init);
        lemma_walk(records, init);
        let w = walk(records, init);
        lemma_visited(init, v.path);
        if visited_paths(init).contains(v.path) {
            let q = choose|q: int| 0 <= q < init.len() && #[trigger] init[q].path == v.path;
            assert(visits[q].path == visits[n].path);
        }
        assert(has_key(records, visits[n].path));
        assert(info_of(w.records, v.path) == info_of(records, v.path));
        let info = DirInfo { dir_mtime: v.mtime, files: v.files };
        lemma_put_sorted(w.records, v.path, info);
        assert forall|i: int|
            0 <= i < visits.len() && is_hit(records, #[trigger] visits[i].path, visits[i].mtime)
                implies info_of(walk(records, visits).records, visits[i].path) == info_of(
            records,
            visits[i].path,
        ) by {
            if i < n {
                assert(init[i] == visits[i]);
                assert(visits[i].path != v.path);
            }
        }
        assert forall|i: int|
            0 <= i < visits.len() && !is_hit(records, #[trigger] visits[i].path, visits[i].mtime)
                implies info_of(walk(records, visits).records, visits[i].path) == (DirInfo {
            dir_mtime: visits[i].mtime,
            files: visits[i].files,
        }) by {
            if i < n {
                assert(init[i] == visits[i]);
                assert(visits[i].path != v.path);
            }
        }
    }
}

/// After a scan, giving one directory's record a different modification
/// time (a stale record) makes the next scan of the same tree read exactly
/// that directory afresh and find every other one in the cache.
pub proof fn lemma_stale_record_rescanned_alone(
    records: Seq<Record>,
    visits: Seq<DirVisit>,
    j: int,
    stale_mtime: i64,
)
    requires
        well_sorted(records),
        distinct_paths(visits),
        0 <= j < visits.len(),
        stale_mtime != visits[j].mtime,
    ensures
        ({
            let first = scan_outcome(records, visits).records;
            let stale = put(
                first,
                visits[j].path,
                DirInfo { dir_mtime: stale_mtime, files: info_of(first, visits[j].path).files },
            );
            let second = scan_outcome(stale, visits).records;
            &&& scan_outcome(stale, visits).scanned == 1
            &&& scan_outcome(stale, visits).cached == visits.len() - 1
            &&& scan_outcome(stale, visits).removed == 0
            &&& has_key(second, visits[j].path)
            &&& info_of(second, visits[j].path) == (DirInfo {
                dir_mtime: visits[j].mtime,
                files: visits[j].files,
            })
            &&& forall|k: Seq<char>|
                k != visits[j].path ==> (#[trigger] has_key(second, k) == has_key(first, k))
            &&& forall|k: Seq<char>|
                k != visits[j].path && has_key(first, k) ==> #[trigger] info_of(second, k)
                    == info_of(first, k)
        }),
{
    lemma_walk(records, visits);
    let w = walk(records, visits);
    let keep = visited_paths(visits);
    lemma_retain(w.records, keep);
    let first = scan_outcome(records, visits).records;
    let p = visits[j].path;
    let info = DirInfo { dir_mtime: stale_mtime, files: info_of(first, p).files };
    let stale = put(first, p, info);
    lemma_put_sorted(first, p, info);
    assert forall|i: int| 0 <= i < visits.len() implies has_key(stale, #[trigger] visits[i].path)
        && (i != j ==> is_hit(stale, visits[i].path, visits[i].mtime)) by {
        lemma_visited(visits, visits[i].path);
        assert(is_hit(w.records, visits[i].path, visits[i].mtime));
        if i != j {
            assert(visits[i].path != p);
        }
    }
    lemma_stale_count_one(stale, visits, j);
    lemma_walk_counts_stale(stale, visits);
    lemma_walk(stale, visits);
    let w2 = walk(stale, visits);
    assert forall|i: int| 0 <= i < w2.records.len() implies keep.contains(#[trigger] w2.records[i].0) by {
        let k = w2.records[i].0;
        assert(has_key(w2.records, k));
        if !keep.contains(k) {
            assert(has_key(stale, k));
            assert(k != p) by {
                lemma_visited(visits, p);
            }
            assert(has_key(first, k));
        }
    }
    lemma_retain_all(w2.records, keep);
    lemma_walk_records(stale, visits);
    assert(!is_hit(stale, visits[j].path, visits[j].mtime));
    assert forall|k: Seq<char>| k != p implies (#[trigger] has_key(w2.records, k) == has_key(
        first,
        k,
    )) by {
        assert(has_key(stale, k) == has_key(first, k));
        if visited_paths(visits).contains(k) {
            assert(has_key(first, k));
        }
    }
    assert forall|k: Seq<char>| k != p && has_key(first, k) implies #[trigger] info_of(
        w2.records,
        k,
    ) == info_of(first, k) by {
        assert(keep.contains(k));
        lemma_visited(visits, k);
        let i = choose|i: int| 0 <= i < visits.len() && #[trigger] visits[i].path == k;
        assert(i != j);
        assert(is_hit(stale, visits[i].path, visits[i].mtime));
    }
}

} // verus!
