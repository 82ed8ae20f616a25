//! The catalog: its rows, the read indices derived from them, and the
//! reconciliation of scan results against them.
//!
//! Every mutation changes the rows, appends the same change to a journal of
//! writes that the durable backend replays, and rebuilds all read indices
//! from the rows.
use std::collections::{HashMap, HashSet};
use vstd::prelude::*;

use crate::text::{moved_path, replace_prefix};
use crate::models::{DirEntry, Entry, Entry2Label, File, FileEntry, Label, LabelAutoFilter, Location};

verus! {

/// One change to the durable catalog, in the order in which it was made.
#[derive(Clone, Debug)]
pub enum Write {
    InsertLocation(Location),
    DeleteLocation(i32),
    InsertEntry(Entry),
    UpdateEntrySize { id: i32, size: i64 },
    UpdateEntry(Entry),
    DeleteEntry(i32),
    InsertFile(File),
    UpdateFileSize { id: i32, size: i64 },
    UpdateFile(File),
    DeleteFile(i32),
    InsertLabel(Label),
    DeleteLabel(i32),
    InsertEntryLabel(Entry2Label),
    DeleteEntryLabel(Entry2Label),
    InsertLabelFilter(LabelAutoFilter),
    UpdateLabelFilter(LabelAutoFilter),
    DeleteLabelFilter(i32),
}

/// Why a catalog operation was refused. Nothing is changed when one is
/// returned.
#[derive(Clone, Copy, Debug, PartialEq, Eq, Structural)]
pub enum StoreError {
    /// The id space of the catalog cannot hold the rows to be inserted.
    IdsExhausted,
    /// No entry, file or filter with the given id is in the catalog.
    NotFound,
    /// Another entry already stands at the destination path.
    PathTaken,
    /// Rows read back from the backend break one of the catalog's keys.
    Inconsistent,
}

/// The rows of `files` that belong to entry `id`, in row order.
pub open spec fn files_of(files: Seq<File>, id: i32) -> Seq<File> {
    files.filter(|f: File| f.entry_id == id)
}

/// The labels that `links` attach to entry `id`.
pub open spec fn labels_of(links: Seq<Entry2Label>, id: i32) -> Set<i32> {
    Set::new(|l: i32| links.contains(Entry2Label { entry_id: id, label_id: l }))
}

/// The entries that `links` attach label `id` to.
pub open spec fn entries_of(links: Seq<Entry2Label>, id: i32) -> Set<i32> {
    Set::new(|e: i32| links.contains(Entry2Label { entry_id: e, label_id: id }))
}

pub open spec fn has_entry_id(entries: Seq<Entry>, id: i32) -> bool {
    exists|i: int| 0 <= i < entries.len() && #[trigger] entries[i].id == id
}

pub open spec fn has_label_id(labels: Seq<Label>, id: i32) -> bool {
    exists|i: int| 0 <= i < labels.len() && #[trigger] labels[i].id == id
}

pub open spec fn ids_ascending(entries: Seq<Entry>) -> bool {
    forall|i: int, j: int| 0 <= i < j < entries.len() ==> entries[i].id < entries[j].id
}

pub open spec fn paths_unique(entries: Seq<Entry>) -> bool {
    forall|i: int, j: int|
        0 <= i < j < entries.len() ==> entries[i].path@ != entries[j].path@
}

pub open spec fn label_names_unique(labels: Seq<Label>) -> bool {
    forall|i: int, j: int| 0 <= i < j < labels.len() ==> labels[i].name@ != labels[j].name@
}

pub open spec fn label_ids_unique(labels: Seq<Label>) -> bool {
    forall|i: int, j: int| 0 <= i < j < labels.len() ==> labels[i].id != labels[j].id
}

pub open spec fn links_unique(links: Seq<Entry2Label>) -> bool {
    forall|i: int, j: int| 0 <= i < j < links.len() ==> links[i] != links[j]
}

/// The catalog's rows, their read indices, and the journal of writes not yet
/// taken by the durable backend.
pub struct Store {
    db_url: String,
    locations: Vec<Location>,
    entries: Vec<Entry>,
    files: Vec<File>,
    labels: Vec<Label>,
    links: Vec<Entry2Label>,
    label_filters: Vec<LabelAutoFilter>,
    next_id: i32,
    files_cache: HashMap<i32, Vec<File>>,
    label_lookup: HashMap<i32, HashSet<i32>>,
    entry_label_lookup: HashMap<i32, HashSet<i32>>,
    writes: Vec<Write>,
}

impl Store {
    pub closed spec fn entry_rows(&self) -> Seq<Entry> {
        self.entries@
    }

    pub closed spec fn file_rows(&self) -> Seq<File> {
        self.files@
    }

    pub closed spec fn label_rows(&self) -> Seq<Label> {
        self.labels@
    }

    pub closed spec fn link_rows(&self) -> Seq<Entry2Label> {
        self.links@
    }

    pub closed spec fn location_rows(&self) -> Seq<Location> {
        self.locations@
    }

    pub closed spec fn filter_rows(&self) -> Seq<LabelAutoFilter> {
        self.label_filters@
    }

    /// The writes made since the journal was last taken.
    pub closed spec fn journal(&self) -> Seq<Write> {
        self.writes@
    }

    /// The id that the next inserted row receives.
    pub closed spec fn next_id(&self) -> i32 {
        self.next_id
    }

    pub closed spec fn url(&self) -> Seq<char> {
        self.db_url@
    }

    /// The rows obey the catalog's keys: entry ids ascend, entry paths and
    /// label names are unique, every file and association points at a row,
    /// and every id is below the next one to be given out.
    pub closed spec fn rows_wf(&self) -> bool {
        &&& ids_ascending(self.entries@)
        &&& paths_unique(self.entries@)
        &&& label_names_unique(self.labels@)
        &&& label_ids_unique(self.labels@)
        &&& links_unique(self.links@)
        &&& self.next_id >= 1
        &&& forall|i: int| 0 <= i < self.entries@.len() ==> #[trigger] self.entries@[i].id < self.next_id
        &&& forall|i: int| 0 <= i < self.labels@.len() ==> #[trigger] self.labels@[i].id < self.next_id
        &&& forall|i: int| 0 <= i < self.files@.len() ==> {
            &&& #[trigger] self.files@[i].id < self.next_id
            &&& has_entry_id(self.entries@, self.files@[i].entry_id)
        }
        &&& forall|i: int| 0 <= i < self.links@.len() ==> {
            &&& has_entry_id(self.entries@, #[trigger] self.links@[i].entry_id)
            &&& has_label_id(self.labels@, self.links@[i].label_id)
        }
        &&& forall|i: int| 0 <= i < self.locations@.len() ==> #[trigger] self.locations@[i].id < self.next_id
        &&& forall|i: int| 0 <= i < self.label_filters@.len() ==> #[trigger] self.label_filters@[i].id < self.next_id
    }

    /// The read indices hold exactly what the rows say.
    pub closed spec fn caches_wf(&self) -> bool {
        &&& forall|id: i32| #[trigger] self.files_cache@.contains_key(id) <==> has_entry_id(self.entries@, id)
        &&& forall|id: i32| #[trigger] self.files_cache@.contains_key(id) ==> self.files_cache@[id]@ == files_of(self.files@, id)
        &&& forall|id: i32| #[trigger] self.entry_label_lookup@.contains_key(id) <==> !labels_of(self.links@, id).is_empty()
        &&& forall|id: i32| #[trigger] self.entry_label_lookup@.contains_key(id) ==> self.entry_label_lookup@[id]@ == labels_of(self.links@, id)
        &&& forall|id: i32| #[trigger] self.label_lookup@.contains_key(id) <==> !entries_of(self.links@, id).is_empty()
        &&& forall|id: i32| #[trigger] self.label_lookup@.contains_key(id) ==> self.label_lookup@[id]@ == entries_of(self.links@, id)
    }

    pub closed spec fn wf(&self) -> bool {
        self.rows_wf() && self.caches_wf()
    }
}

/// Index of the first element of `s` that satisfies `p`.
pub open spec fn first_match<T>(s: Seq<T>, p: spec_fn(T) -> bool) -> Option<int>
    decreases s.len(),
{
    if s.len() == 0 {
        None
    } else {
        match first_match(s.drop_last(), p) {
            Some(i) => Some(i),
            None => if p(s.last()) {
                Some(s.len() - 1)
            } else {
                None
            },
        }
    }
}

pub proof fn lemma_first_match<T>(s: Seq<T>, p: spec_fn(T) -> bool)
    ensures
        match first_match(s, p) {
            Some(i) => 0 <= i < s.len() && p(s[i]) && forall|j: int| 0 <= j < i ==> !p(#[trigger] s[j]),
            None => forall|j: int| 0 <= j < s.len() ==> !p(#[trigger] s[j]),
        },
    decreases s.len(),
{
    if s.len() > 0 {
        lemma_first_match(s.drop_last(), p);
        assert forall|j: int| 0 <= j < s.len() - 1 implies s.drop_last()[j] == s[j] by {}
    }
}

pub proof fn lemma_first_match_at<T>(s: Seq<T>, p: spec_fn(T) -> bool, i: int)
    requires
        0 <= i < s.len(),
        p(s[i]),
        forall|j: int| 0 <= j < i ==> !p(#[trigger] s[j]),
    ensures
        first_match(s, p) == Some(i),
{
    lemma_first_match(s, p);
}

pub proof fn lemma_first_match_none<T>(s: Seq<T>, p: spec_fn(T) -> bool)
    requires
        forall|j: int| 0 <= j < s.len() ==> !p(#[trigger] s[j]),
    ensures
        first_match(s, p) is None,
{
    lemma_first_match(s, p);
}

/// A sequence of zero or one elements.
pub open spec fn opt_seq<T>(o: Option<T>) -> Seq<T> {
    match o {
        Some(x) => seq![x],
        None => Seq::empty(),
    }
}

/// The scanned aggregate stands at `path`.
pub open spec fn scan_at(path: Seq<char>) -> spec_fn((i32, DirEntry)) -> bool {
    |x: (i32, DirEntry)| x.1.path@ == path
}

/// The scanned file stands at `path`.
pub open spec fn scanned_file_at(path: Seq<char>) -> spec_fn(FileEntry) -> bool {
    |x: FileEntry| x.path@ == path
}

/// The entry row stands at `path`.
pub open spec fn entry_at(path: Seq<char>) -> spec_fn(Entry) -> bool {
    |x: Entry| x.path@ == path
}

/// The file row stands at `path`.
pub open spec fn file_row_at(path: Seq<char>) -> spec_fn(File) -> bool {
    |x: File| x.path@ == path
}

/// The entry row has id `id`.
pub open spec fn entry_with_id(id: i32) -> spec_fn(Entry) -> bool {
    |x: Entry| x.id == id
}

/// The aggregate of a scan that stands for `path`: the first one there.
pub open spec fn agg_index(scan: Seq<(i32, DirEntry)>, path: Seq<char>) -> Option<int> {
    first_match(scan, scan_at(path))
}

/// The entry after reconciliation, if it survives it: its size becomes that
/// of the aggregate at its path.
pub open spec fn updated_entry(e: Entry, scan: Seq<(i32, DirEntry)>) -> Option<Entry> {
    match agg_index(scan, e.path@) {
        Some(k) => Some(
            Entry {
                id: e.id,
                location_id: e.location_id,
                name: e.name,
                path: e.path,
                size: scan[k].1.size as i64,
                grade: e.grade,
            },
        ),
        None => None,
    }
}

/// The entry rows that survive reconciliation, in row order.
pub open spec fn kept_entries(old: Seq<Entry>, scan: Seq<(i32, DirEntry)>) -> Seq<Entry>
    decreases old.len(),
{
    if old.len() == 0 {
        Seq::empty()
    } else {
        kept_entries(old.drop_last(), scan) + opt_seq(updated_entry(old.last(), scan))
    }
}

/// The writes that reconciliation makes to the existing entry rows.
pub open spec fn entry_write(e: Entry, scan: Seq<(i32, DirEntry)>) -> Seq<Write> {
    match agg_index(scan, e.path@) {
        Some(k) => if scan[k].1.size as i64 != e.size {
            seq![Write::UpdateEntrySize { id: e.id, size: scan[k].1.size as i64 }]
        } else {
            Seq::empty()
        },
        None => seq![Write::DeleteEntry(e.id)],
    }
}

pub open spec fn entry_writes(old: Seq<Entry>, scan: Seq<(i32, DirEntry)>) -> Seq<Write>
    decreases old.len(),
{
    if old.len() == 0 {
        Seq::empty()
    } else {
        entry_writes(old.drop_last(), scan) + entry_write(old.last(), scan)
    }
}

/// The aggregate at `k` becomes a new entry: it is the first at its path and
/// no entry row stands there.
pub open spec fn is_fresh_agg(old: Seq<Entry>, scan: Seq<(i32, DirEntry)>, k: int) -> bool {
    &&& agg_index(scan, scan[k].1.path@) == Some(k)
    &&& first_match(old, entry_at(scan[k].1.path@)) is None
}

/// The aggregates among the first `n` of the scan that become new entries.
pub open spec fn fresh_aggs(old: Seq<Entry>, scan: Seq<(i32, DirEntry)>, n: int) -> Seq<int>
    decreases n,
{
    if n <= 0 {
        Seq::empty()
    } else if is_fresh_agg(old, scan, n - 1) {
        fresh_aggs(old, scan, n - 1).push(n - 1)
    } else {
        fresh_aggs(old, scan, n - 1)
    }
}

/// The entry row made from the aggregate at `k`.
pub open spec fn new_entry(scan: Seq<(i32, DirEntry)>, k: int, id: int) -> Entry {
    Entry {
        id: id as i32,
        location_id: scan[k].1.location_id,
        name: scan[k].1.name,
        path: scan[k].1.path,
        size: scan[k].1.size as i64,
        grade: None,
    }
}

/// The entry rows that reconciliation inserts, with ids from `base` on.
pub open spec fn fresh_entries(old: Seq<Entry>, scan: Seq<(i32, DirEntry)>, base: int) -> Seq<Entry> {
    fresh_aggs(old, scan, scan.len() as int).map(|j: int, k: int| new_entry(scan, k, base + j))
}

/// The first aggregate of the scan at `path`.
fn find_scan(scan: &Vec<(i32, DirEntry)>, path: &String) -> (r: Option<usize>)
    ensures
        match r {
            Some(k) => k < scan@.len() && agg_index(scan@, path@) == Some(k as int),
            None => agg_index(scan@, path@) is None,
        },
{
    let mut k: usize = 0;
    while k < scan.len()
        invariant
            k <= scan@.len(),
            forall|j: int| 0 <= j < k ==> !scan_at(path@)(#[trigger] scan@[j]),
        decreases scan@.len() - k,
    {
        if scan[k].1.path == *path {
            proof {
                lemma_first_match_at(scan@, scan_at(path@), k as int);
            }
            return Some(k);
        }
        k = k + 1;
    }
    proof {
        lemma_first_match_none(scan@, scan_at(path@));
    }
    None
}

/// The first scanned file at `path`.
fn find_scanned_file(files: &Vec<FileEntry>, path: &String) -> (r: Option<usize>)
    ensures
        match r {
            Some(m) => m < files@.len() && first_match(files@, scanned_file_at(path@)) == Some(m as int),
            None => first_match(files@, scanned_file_at(path@)) is None,
        },
{
    let mut k: usize = 0;
    while k < files.len()
        invariant
            k <= files@.len(),
            forall|j: int| 0 <= j < k ==> !scanned_file_at(path@)(#[trigger] files@[j]),
        decreases files@.len() - k,
    {
        if files[k].path == *path {
            proof {
                lemma_first_match_at(files@, scanned_file_at(path@), k as int);
            }
            return Some(k);
        }
        k = k + 1;
    }
    proof {
        lemma_first_match_none(files@, scanned_file_at(path@));
    }
    None
}

/// The first entry row at `path`.
fn find_entry_at(entries: &Vec<Entry>, path: &String) -> (r: Option<usize>)
    ensures
        match r {
            Some(i) => i < entries@.len() && first_match(entries@, entry_at(path@)) == Some(i as int),
            None => first_match(entries@, entry_at(path@)) is None,
        },
{
    let mut k: usize = 0;
    while k < entries.len()
        invariant
            k <= entries@.len(),
            forall|j: int| 0 <= j < k ==> !entry_at(path@)(#[trigger] entries@[j]),
        decreases entries@.len() - k,
    {
        if entries[k].path == *path {
            proof {
                lemma_first_match_at(entries@, entry_at(path@), k as int);
            }
            return Some(k);
        }
        k = k + 1;
    }
    proof {
        lemma_first_match_none(entries@, entry_at(path@));
    }
    None
}

/// Whether one of the file rows stands at `path`.
fn file_rows_contain(files: &Vec<File>, path: &String) -> (r: bool)
    ensures
        r == first_match(files@, file_row_at(path@)) is Some,
{
    let mut k: usize = 0;
    while k < files.len()
        invariant
            k <= files@.len(),
            forall|j: int| 0 <= j < k ==> !file_row_at(path@)(#[trigger] files@[j]),
        decreases files@.len() - k,
    {
        if files[k].path == *path {
            proof {
                lemma_first_match_at(files@, file_row_at(path@), k as int);
            }
            return true;
        }
        k = k + 1;
    }
    proof {
        lemma_first_match_none(files@, file_row_at(path@));
    }
    false
}

/// The position of the entry row with id `id`, in rows of ascending ids.
pub(crate) fn index_of_id(entries: &Vec<Entry>, id: i32) -> (r: Option<usize>)
    requires
        ids_ascending(entries@),
    ensures
        match r {
            Some(i) => i < entries@.len() && entries@[i as int].id == id
                && first_match(entries@, entry_with_id(id)) == Some(i as int),
            None => !has_entry_id(entries@, id) && first_match(entries@, entry_with_id(id)) is None,
        },
{
    let mut lo: usize = 0;
    let mut hi: usize = entries.len();
    while lo < hi
        invariant
            lo <= hi <= entries@.len(),
            ids_ascending(entries@),
            forall|j: int| 0 <= j < lo ==> #[trigger] entries@[j].id < id,
            forall|j: int| hi <= j < entries@.len() ==> #[trigger] entries@[j].id > id,
        decreases hi - lo,
    {
        let mid = lo + (hi - lo) / 2;
        let mid_id = entries[mid].id;
        if mid_id == id {
            proof {
                lemma_first_match_at(entries@, entry_with_id(id), mid as int);
            }
            return Some(mid);
        } else if mid_id < id {
            lo = mid + 1;
        } else {
            hi = mid;
        }
    }
    proof {
        lemma_first_match_none(entries@, entry_with_id(id));
    }
    None
}

/// The entry rows that survive reconciliation against `scan`, the aggregate
/// found for each existing row, and the writes made to existing rows.
fn keep_entries(rows: &Vec<Entry>, scan: &Vec<(i32, DirEntry)>, writes: &mut Vec<Write>) -> (r: (
    Vec<Entry>,
    Vec<Option<usize>>,
    Vec<usize>,
))
    ensures
        r.0@ == kept_entries(rows@, scan@),
        r.2@.len() == r.0@.len(),
        forall|j: int| 0 <= j < r.2@.len() ==> #[trigger] r.2@[j] < scan@.len()
            && agg_index(scan@, r.0@[j].path@) == Some(r.2@[j] as int),
        r.1@.len() == rows@.len(),
        forall|i: int| 0 <= i < rows@.len() ==> match #[trigger] r.1@[i] {
            Some(k) => k < scan@.len() && agg_index(scan@, rows@[i].path@) == Some(k as int),
            None => agg_index(scan@, rows@[i].path@) is None,
        },
        final(writes)@ == old(writes)@ + entry_writes(rows@, scan@),
{
    let mut kept: Vec<Entry> = Vec::new();
    let mut aggs: Vec<Option<usize>> = Vec::new();
    let mut kept_aggs: Vec<usize> = Vec::new();
    let mut i: usize = 0;
    while i < rows.len()
        invariant
            i <= rows@.len(),
            kept@ == kept_entries(rows@.take(i as int), scan@),
            kept_aggs@.len() == kept@.len(),
            forall|j: int| 0 <= j < kept_aggs@.len() ==> #[trigger] kept_aggs@[j] < scan@.len()
                && agg_index(scan@, kept@[j].path@) == Some(kept_aggs@[j] as int),
            aggs@.len() == i,
            forall|j: int| 0 <= j < i ==> match #[trigger] aggs@[j] {
                Some(k) => k < scan@.len() && agg_index(scan@, rows@[j].path@) == Some(k as int),
                None => agg_index(scan@, rows@[j].path@) is None,
            },
            writes@ == old(writes)@ + entry_writes(rows@.take(i as int), scan@),
        decreases rows@.len() - i,
    {
        let e = &rows[i];
        let ghost pre = rows@.take(i as int);
        let ghost post = rows@.take(i + 1);
        assert(post.drop_last() =~= pre);
        assert(post.last() == rows@[i as int]);
        let found = find_scan(scan, &e.path);
        match found {
            Some(k) => {
                let size = #[verifier::truncate] (scan[k].1.size as i64);
                if size != e.size {
                    writes.push(Write::UpdateEntrySize { id: e.id, size });
                }
                kept.push(Entry {
                    id: e.id,
                    location_id: e.location_id,
                    name: e.name.clone(),
                    path: e.path.clone(),
                    size,
                    grade: e.grade,
                });
                kept_aggs.push(k);
            },
            None => {
                writes.push(Write::DeleteEntry(e.id));
            },
        }
        aggs.push(found);
        proof {
            assert(kept@ =~= kept_entries(post, scan@));
            assert(writes@ =~= old(writes)@ + entry_writes(post, scan@));
        }
        i = i + 1;
    }
    assert(rows@.take(rows@.len() as int) =~= rows@);
    (kept, aggs, kept_aggs)
}

/// The aggregates of the scan that become new entries, in scan order.
fn fresh_agg_list(rows: &Vec<Entry>, scan: &Vec<(i32, DirEntry)>) -> (r: Vec<usize>)
    ensures
        r@.len() == fresh_aggs(rows@, scan@, scan@.len() as int).len(),
        forall|j: int| 0 <= j < r@.len() ==> #[trigger] r@[j] as int == fresh_aggs(rows@, scan@, scan@.len() as int)[j],
{
    let mut aggs: Vec<usize> = Vec::new();
    let mut k: usize = 0;
    while k < scan.len()
        invariant
            k <= scan@.len(),
            aggs@.len() == fresh_aggs(rows@, scan@, k as int).len(),
            forall|j: int| 0 <= j < aggs@.len() ==> #[trigger] aggs@[j] as int == fresh_aggs(rows@, scan@, k as int)[j],
        decreases scan@.len() - k,
    {
        let d = &scan[k].1;
        let first = find_scan(scan, &d.path);
        let existing = find_entry_at(rows, &d.path);
        if first == Some(k) && existing.is_none() {
            assert(is_fresh_agg(rows@, scan@, k as int));
            aggs.push(k);
        } else {
            assert(!is_fresh_agg(rows@, scan@, k as int));
        }
        k = k + 1;
    }
    aggs
}

/// Makes the new entry rows from the given aggregates, with ids from
/// `base` on.
fn make_entries(
    rows: &Vec<Entry>,
    scan: &Vec<(i32, DirEntry)>,
    aggs: &Vec<usize>,
    base: i32,
    writes: &mut Vec<Write>,
) -> (r: Vec<Entry>)
    requires
        0 <= base,
        base as int + aggs@.len() <= i32::MAX,
        aggs@.len() == fresh_aggs(rows@, scan@, scan@.len() as int).len(),
        forall|j: int| 0 <= j < aggs@.len() ==> #[trigger] aggs@[j] as int == fresh_aggs(rows@, scan@, scan@.len() as int)[j],
        forall|j: int| 0 <= j < aggs@.len() ==> #[trigger] aggs@[j] < scan@.len(),
    ensures
        r@ == fresh_entries(rows@, scan@, base as int),
        final(writes)@ == old(writes)@ + r@.map_values(|e: Entry| Write::InsertEntry(e)),
{
    let ghost fa = fresh_aggs(rows@, scan@, scan@.len() as int);
    let mut made: Vec<Entry> = Vec::new();
    let mut j: usize = 0;
    while j < aggs.len()
        invariant
            j <= aggs@.len(),
            0 <= base,
            base as int + aggs@.len() <= i32::MAX,
            aggs@.len() == fa.len(),
            forall|i: int| 0 <= i < aggs@.len() ==> #[trigger] aggs@[i] as int == fa[i],
            forall|i: int| 0 <= i < aggs@.len() ==> #[trigger] aggs@[i] < scan@.len(),
            made@ =~= fa.take(j as int).map(|i: int, a: int| new_entry(scan@, a, base + i)),
            writes@ == old(writes)@ + made@.map_values(|e: Entry| Write::InsertEntry(e)),
        decreases aggs@.len() - j,
    {
        let k = aggs[j];
        let d = &scan[k].1;
        let e = Entry {
            id: base + j as i32,
            location_id: d.location_id,
            name: d.name.clone(),
            path: d.path.clone(),
            size: #[verifier::truncate] (d.size as i64),
            grade: None,
        };
        let ghost made_before = made@;
        writes.push(Write::InsertEntry(e.duplicate()));
        made.push(e);
        proof {
            assert(made@ =~= fa.take(j + 1).map(|i: int, a: int| new_entry(scan@, a, base + i)));
            assert(made@.map_values(|e: Entry| Write::InsertEntry(e)) =~= made_before.map_values(|e: Entry| Write::InsertEntry(e)).push(Write::InsertEntry(made@.last())));
        }
        j = j + 1;
    }
    assert(fa.take(aggs@.len() as int) =~= fa);
    made
}

/// The aggregate that the owner of file row `f` is reconciled against.
pub open spec fn owner_agg(old_rows: Seq<Entry>, scan: Seq<(i32, DirEntry)>, f: File) -> Option<int> {
    match first_match(old_rows, entry_with_id(f.entry_id)) {
        Some(i) => agg_index(scan, old_rows[i].path@),
        None => None,
    }
}

/// The file row after reconciliation, if it survives it: its size becomes
/// that of the first scanned file at its path in its owner's aggregate.
pub open spec fn updated_file(old_rows: Seq<Entry>, scan: Seq<(i32, DirEntry)>, f: File) -> Option<File> {
    match owner_agg(old_rows, scan, f) {
        Some(k) => match first_match(scan[k].1.files@, scanned_file_at(f.path@)) {
            Some(m) => Some(
                File {
                    id: f.id,
                    entry_id: f.entry_id,
                    name: f.name,
                    path: f.path,
                    size: scan[k].1.files@[m].size as i64,
                },
            ),
            None => None,
        },
        None => None,
    }
}

/// The write that reconciliation makes to file row `f`; none where its
/// entry is deleted, since the deletion takes the file with it.
pub open spec fn file_write(old_rows: Seq<Entry>, scan: Seq<(i32, DirEntry)>, f: File) -> Seq<Write> {
    match owner_agg(old_rows, scan, f) {
        Some(k) => match first_match(scan[k].1.files@, scanned_file_at(f.path@)) {
            Some(m) => if scan[k].1.files@[m].size as i64 != f.size {
                seq![Write::UpdateFileSize { id: f.id, size: scan[k].1.files@[m].size as i64 }]
            } else {
                Seq::empty()
            },
            None => seq![Write::DeleteFile(f.id)],
        },
        None => Seq::empty(),
    }
}

pub open spec fn kept_files(old_rows: Seq<Entry>, scan: Seq<(i32, DirEntry)>, files: Seq<File>) -> Seq<File>
    decreases files.len(),
{
    if files.len() == 0 {
        Seq::empty()
    } else {
        kept_files(old_rows, scan, files.drop_last()) + opt_seq(updated_file(old_rows, scan, files.last()))
    }
}

pub open spec fn file_writes(old_rows: Seq<Entry>, scan: Seq<(i32, DirEntry)>, files: Seq<File>) -> Seq<Write>
    decreases files.len(),
{
    if files.len() == 0 {
        Seq::empty()
    } else {
        file_writes(old_rows, scan, files.drop_last()) + file_write(old_rows, scan, files.last())
    }
}

/// Positions among the first `n` scanned files `d` of those that become new
/// rows of an entry whose rows are `olds`: the first at their path, with no
/// row there.
pub open spec fn fresh_file_positions(d: Seq<FileEntry>, olds: Seq<File>, n: int) -> Seq<int>
    decreases n,
{
    if n <= 0 {
        Seq::empty()
    } else if first_match(d, scanned_file_at(d[n - 1].path@)) == Some(n - 1) && first_match(
        olds,
        file_row_at(d[n - 1].path@),
    ) is None {
        fresh_file_positions(d, olds, n - 1).push(n - 1)
    } else {
        fresh_file_positions(d, olds, n - 1)
    }
}

/// The new rows that the scanned files of entry `e` give, each as the id of
/// its entry and the scanned file.
pub open spec fn fresh_files_for(e: Entry, scan: Seq<(i32, DirEntry)>, files: Seq<File>) -> Seq<(i32, FileEntry)> {
    match agg_index(scan, e.path@) {
        Some(k) => fresh_file_positions(scan[k].1.files@, files_of(files, e.id), scan[k].1.files@.len() as int).map_values(
            |m: int| (e.id, scan[k].1.files@[m]),
        ),
        None => Seq::empty(),
    }
}

/// The new file rows for the first `n` entry rows, in entry order.
pub open spec fn fresh_file_sources(entries: Seq<Entry>, scan: Seq<(i32, DirEntry)>, files: Seq<File>, n: int) -> Seq<(i32, FileEntry)>
    decreases n,
{
    if n <= 0 {
        Seq::empty()
    } else {
        fresh_file_sources(entries, scan, files, n - 1) + fresh_files_for(entries[n - 1], scan, files)
    }
}

pub open spec fn new_file(src: (i32, FileEntry), id: int) -> File {
    File { id: id as i32, entry_id: src.0, name: src.1.name, path: src.1.path, size: src.1.size as i64 }
}

/// The file rows that reconciliation inserts, with ids from `base` on.
pub open spec fn fresh_files(entries: Seq<Entry>, scan: Seq<(i32, DirEntry)>, files: Seq<File>, base: int) -> Seq<File> {
    fresh_file_sources(entries, scan, files, entries.len() as int).map(|j: int, src: (i32, FileEntry)| new_file(src, base + j))
}

/// The file rows that survive reconciliation, and the writes made to the
/// existing rows.
fn keep_files(
    rows: &Vec<Entry>,
    aggs: &Vec<Option<usize>>,
    files: &Vec<File>,
    scan: &Vec<(i32, DirEntry)>,
    writes: &mut Vec<Write>,
) -> (r: Vec<File>)
    requires
        ids_ascending(rows@),
        aggs@.len() == rows@.len(),
        forall|i: int| 0 <= i < rows@.len() ==> match #[trigger] aggs@[i] {
            Some(k) => k < scan@.len() && agg_index(scan@, rows@[i].path@) == Some(k as int),
            None => agg_index(scan@, rows@[i].path@) is None,
        },
    ensures
        r@ == kept_files(rows@, scan@, files@),
        final(writes)@ == old(writes)@ + file_writes(rows@, scan@, files@),
{
    let mut kept: Vec<File> = Vec::new();
    let mut i: usize = 0;
    while i < files.len()
        invariant
            i <= files@.len(),
            ids_ascending(rows@),
            aggs@.len() == rows@.len(),
            forall|i: int| 0 <= i < rows@.len() ==> match #[trigger] aggs@[i] {
                Some(k) => k < scan@.len() && agg_index(scan@, rows@[i].path@) == Some(k as int),
                None => agg_index(scan@, rows@[i].path@) is None,
            },
            kept@ == kept_files(rows@, scan@, files@.take(i as int)),
            writes@ == old(writes)@ + file_writes(rows@, scan@, files@.take(i as int)),
        decreases files@.len() - i,
    {
        let f = &files[i];
        let ghost pre = files@.take(i as int);
        let ghost post = files@.take(i + 1);
        assert(post.drop_last() =~= pre);
        assert(post.last() == files@[i as int]);
        match index_of_id(rows, f.entry_id) {
            Some(owner) => {
                match aggs[owner] {
                    Some(k) => {
                        let d = &scan[k].1;
                        match find_scanned_file(&d.files, &f.path) {
                            Some(m) => {
                                let size = #[verifier::truncate] (d.files[m].size as i64);
                                if size != f.size {
                                    writes.push(Write::UpdateFileSize { id: f.id, size });
                                }
                                kept.push(File {
                                    id: f.id,
                                    entry_id: f.entry_id,
                                    name: f.name.clone(),
                                    path: f.path.clone(),
                                    size,
                                });
                            },
                            None => {
                                writes.push(Write::DeleteFile(f.id));
                            },
                        }
                    },
                    None => {},
                }
            },
            None => {},
        }
        proof {
            assert(kept@ =~= kept_files(rows@, scan@, post));
            assert(writes@ =~= old(writes)@ + file_writes(rows@, scan@, post));
        }
        i = i + 1;
    }
    assert(files@.take(files@.len() as int) =~= files@);
    kept
}

pub open spec fn source_of(scan: Seq<(i32, DirEntry)>, t: (i32, usize, usize)) -> (i32, FileEntry) {
    (t.0, scan[t.1 as int].1.files@[t.2 as int])
}

pub open spec fn sources_in_range(scan: Seq<(i32, DirEntry)>, ts: Seq<(i32, usize, usize)>) -> bool {
    forall|i: int|
        0 <= i < ts.len() ==> #[trigger] ts[i].1 < scan.len() && ts[i].2 < scan[ts[i].1 as int].1.files@.len()
}

/// The scanned files that become new file rows, each as the id of its entry,
/// its aggregate and its position there.
fn fresh_file_list(
    entries: &Vec<Entry>,
    eaggs: &Vec<usize>,
    cache: &HashMap<i32, Vec<File>>,
    files: &Vec<File>,
    scan: &Vec<(i32, DirEntry)>,
) -> (r: Vec<(i32, usize, usize)>)
    requires
        eaggs@.len() == entries@.len(),
        forall|j: int| 0 <= j < entries@.len() ==> #[trigger] eaggs@[j] < scan@.len()
            && agg_index(scan@, entries@[j].path@) == Some(eaggs@[j] as int),
        forall|id: i32| #[trigger] cache@.contains_key(id) ==> cache@[id]@ == files_of(files@, id),
        forall|id: i32| !(#[trigger] cache@.contains_key(id)) ==> files_of(files@, id).len() == 0,
    ensures
        sources_in_range(scan@, r@),
        r@.map_values(|t: (i32, usize, usize)| source_of(scan@, t)) == fresh_file_sources(entries@, scan@, files@, entries@.len() as int),
{
    let empty: Vec<File> = Vec::new();
    let mut out: Vec<(i32, usize, usize)> = Vec::new();
    let mut j: usize = 0;
    while j < entries.len()
        invariant
            j <= entries@.len(),
            eaggs@.len() == entries@.len(),
            forall|j: int| 0 <= j < entries@.len() ==> #[trigger] eaggs@[j] < scan@.len()
                && agg_index(scan@, entries@[j].path@) == Some(eaggs@[j] as int),
            forall|id: i32| #[trigger] cache@.contains_key(id) ==> cache@[id]@ == files_of(files@, id),
            forall|id: i32| !(#[trigger] cache@.contains_key(id)) ==> files_of(files@, id).len() == 0,
            empty@.len() == 0,
            sources_in_range(scan@, out@),
            out@.map_values(|t: (i32, usize, usize)| source_of(scan@, t)) == fresh_file_sources(entries@, scan@, files@, j as int),
        decreases entries@.len() - j,
    {
        let e = &entries[j];
        let k = eaggs[j];
        let d = &scan[k].1.files;
        let olds: &Vec<File> = match cache.get(&e.id) {
            Some(v) => v,
            None => &empty,
        };
        assert(olds@ =~= files_of(files@, e.id));
        let ghost before = out@.map_values(|t: (i32, usize, usize)| source_of(scan@, t));
        let mut m: usize = 0;
        while m < d.len()
            invariant
                m <= d@.len(),
                k < scan@.len(),
                d@ == scan@[k as int].1.files@,
                olds@ == files_of(files@, e.id),
                sources_in_range(scan@, out@),
                out@.map_values(|t: (i32, usize, usize)| source_of(scan@, t)) == before + fresh_file_positions(d@, olds@, m as int).map_values(
                    |p: int| (e.id, d@[p]),
                ),
            decreases d@.len() - m,
        {
            let first = find_scanned_file(d, &d[m].path);
            let present = file_rows_contain(olds, &d[m].path);
            let ghost out_before = out@;
            if first == Some(m) && !present {
                out.push((e.id, k, m));
                proof {
                    assert(fresh_file_positions(d@, olds@, m + 1) == fresh_file_positions(d@, olds@, m as int).push(m as int));
                    assert(out@.map_values(|t: (i32, usize, usize)| source_of(scan@, t)) =~= out_before.map_values(|t: (i32, usize, usize)| source_of(scan@, t)).push((e.id, d@[m as int])));
                    assert(fresh_file_positions(d@, olds@, m + 1).map_values(|p: int| (e.id, d@[p])) =~= fresh_file_positions(d@, olds@, m as int).map_values(|p: int| (e.id, d@[p])).push((e.id, d@[m as int])));
                }
            } else {
                assert(fresh_file_positions(d@, olds@, m + 1) == fresh_file_positions(d@, olds@, m as int));
            }
            m = m + 1;
        }
        proof {
            assert(fresh_files_for(entries@[j as int], scan@, files@) == fresh_file_positions(d@, olds@, d@.len() as int).map_values(
                |p: int| (e.id, d@[p]),
            ));
            assert(fresh_file_sources(entries@, scan@, files@, j + 1) == fresh_file_sources(entries@, scan@, files@, j as int) + fresh_files_for(entries@[j as int], scan@, files@));
        }
        j = j + 1;
    }
    out
}

/// Makes the new file rows from their sources, with ids from `base` on.
fn make_files(
    scan: &Vec<(i32, DirEntry)>,
    srcs: &Vec<(i32, usize, usize)>,
    base: i32,
    writes: &mut Vec<Write>,
) -> (r: Vec<File>)
    requires
        0 <= base,
        base as int + srcs@.len() <= i32::MAX,
        sources_in_range(scan@, srcs@),
    ensures
        r@ == srcs@.map_values(|t: (i32, usize, usize)| source_of(scan@, t)).map(
            |j: int, src: (i32, FileEntry)| new_file(src, base + j),
        ),
        final(writes)@ == old(writes)@ + r@.map_values(|f: File| Write::InsertFile(f)),
{
    let ghost want = srcs@.map_values(|t: (i32, usize, usize)| source_of(scan@, t)).map(
        |j: int, src: (i32, FileEntry)| new_file(src, base + j),
    );
    let mut made: Vec<File> = Vec::new();
    let mut j: usize = 0;
    while j < srcs.len()
        invariant
            j <= srcs@.len(),
            0 <= base,
            base as int + srcs@.len() <= i32::MAX,
            sources_in_range(scan@, srcs@),
            want == srcs@.map_values(|t: (i32, usize, usize)| source_of(scan@, t)).map(
                |j: int, src: (i32, FileEntry)| new_file(src, base + j),
            ),
            made@ =~= want.take(j as int),
            writes@ == old(writes)@ + made@.map_values(|f: File| Write::InsertFile(f)),
        decreases srcs@.len() - j,
    {
        let (eid, k, m) = srcs[j];
        assert(sources_in_range(scan@, srcs@));
        assert(srcs@[j as int].1 < scan@.len());
        let fe = &scan[k].1.files[m];
        let f = File {
            id: base + j as i32,
            entry_id: eid,
            name: fe.name.clone(),
            path: fe.path.clone(),
            size: #[verifier::truncate] (fe.size as i64),
        };
        let ghost made_before = made@;
        writes.push(Write::InsertFile(f.duplicate()));
        made.push(f);
        proof {
            assert(made@ =~= want.take(j + 1));
            assert(made@.map_values(|f: File| Write::InsertFile(f)) =~= made_before.map_values(|f: File| Write::InsertFile(f)).push(Write::InsertFile(made@.last())));
        }
        j = j + 1;
    }
    assert(want.take(srcs@.len() as int) =~= want);
    made
}

/// The positions of the entry rows that survive reconciliation.
pub open spec fn kept_sources(old_rows: Seq<Entry>, scan: Seq<(i32, DirEntry)>) -> Seq<int>
    decreases old_rows.len(),
{
    if old_rows.len() == 0 {
        Seq::empty()
    } else if agg_index(scan, old_rows.last().path@) is Some {
        kept_sources(old_rows.drop_last(), scan).push(old_rows.len() - 1)
    } else {
        kept_sources(old_rows.drop_last(), scan)
    }
}

pub proof fn lemma_kept_entries(old_rows: Seq<Entry>, scan: Seq<(i32, DirEntry)>)
    ensures
        ({
            let kept = kept_entries(old_rows, scan);
            let src = kept_sources(old_rows, scan);
            &&& kept.len() == src.len()
            &&& forall|j: int| 0 <= j < src.len() ==> {
                &&& 0 <= #[trigger] src[j] < old_rows.len()
                &&& agg_index(scan, old_rows[src[j]].path@) is Some
                &&& kept[j] == updated_entry(old_rows[src[j]], scan).unwrap()
            }
            &&& forall|j1: int, j2: int| 0 <= j1 < j2 < src.len() ==> src[j1] < src[j2]
            &&& forall|i: int| 0 <= i < old_rows.len() && agg_index(scan, old_rows[i].path@) is Some
                ==> exists|j: int| 0 <= j < src.len() && src[j] == i
        }),
    decreases old_rows.len(),
{
    if old_rows.len() > 0 {
        let pre = old_rows.drop_last();
        lemma_kept_entries(pre, scan);
        let src0 = kept_sources(pre, scan);
        assert forall|j: int| 0 <= j < src0.len() implies pre[src0[j]] == old_rows[src0[j]] by {}
        let kept = kept_entries(old_rows, scan);
        let src = kept_sources(old_rows, scan);
        assert forall|i: int| 0 <= i < old_rows.len() && agg_index(scan, old_rows[i].path@) is Some
            implies exists|j: int| 0 <= j < src.len() && src[j] == i by {
            if i < old_rows.len() - 1 {
                assert(pre[i] == old_rows[i]);
                let j = choose|j: int| 0 <= j < src0.len() && src0[j] == i;
                assert(src[j] == i);
            } else {
                assert(src[src.len() - 1] == i);
            }
        }
    }
}

pub proof fn lemma_fresh_aggs(old_rows: Seq<Entry>, scan: Seq<(i32, DirEntry)>, n: int)
    requires
        n <= scan.len(),
    ensures
        ({
            let fa = fresh_aggs(old_rows, scan, n);
            &&& fa.len() <= if n < 0 { 0 } else { n }
            &&& forall|j: int| 0 <= j < fa.len() ==> 0 <= #[trigger] fa[j] < n && is_fresh_agg(old_rows, scan, fa[j])
            &&& forall|j1: int, j2: int| 0 <= j1 < j2 < fa.len() ==> fa[j1] < fa[j2]
            &&& forall|k: int| 0 <= k < n && is_fresh_agg(old_rows, scan, k) ==> exists|j: int| 0 <= j < fa.len() && fa[j] == k
        }),
    decreases n,
{
    if n > 0 {
        lemma_fresh_aggs(old_rows, scan, n - 1);
        let fa0 = fresh_aggs(old_rows, scan, n - 1);
        let fa = fresh_aggs(old_rows, scan, n);
        assert forall|k: int| 0 <= k < n && is_fresh_agg(old_rows, scan, k) implies exists|j: int| 0 <= j < fa.len() && fa[j] == k by {
            if k < n - 1 {
                let j = choose|j: int| 0 <= j < fa0.len() && fa0[j] == k;
                assert(fa[j] == k);
            } else {
                assert(fa[fa.len() - 1] == k);
            }
        }
    }
}

/// Elements of a filtered sequence come from it and satisfy the filter, and
/// filtering keeps a sequence free of repetitions.
pub proof fn lemma_filter_sub<T>(s: Seq<T>, p: spec_fn(T) -> bool)
    ensures
        forall|i: int| 0 <= i < s.filter(p).len() ==> p(#[trigger] s.filter(p)[i]) && s.contains(s.filter(p)[i]),
        (forall|i: int, j: int| 0 <= i < j < s.len() ==> s[i] != s[j]) ==> (forall|i: int, j: int|
            0 <= i < j < s.filter(p).len() ==> s.filter(p)[i] != s.filter(p)[j]),
    decreases s.len(),
{
    if s.len() > 0 {
        let pre = s.drop_last();
        lemma_filter_sub(pre, p);
        let f0 = pre.filter(p);
        let f = s.filter(p);
        assert(s =~= pre.push(s.last()));
        pre.lemma_filter_push(s.last(), p);
        assert(f == if p(s.last()) { f0.push(s.last()) } else { f0 });
        assert forall|i: int| 0 <= i < f.len() implies p(#[trigger] f[i]) && s.contains(f[i]) by {
            if i < f0.len() {
                assert(f[i] == f0[i]);
                let k = choose|k: int| 0 <= k < pre.len() && pre[k] == f0[i];
                assert(s[k] == f[i]);
            } else {
                assert(f[i] == s[s.len() - 1]);
            }
        }
        if forall|i: int, j: int| 0 <= i < j < s.len() ==> s[i] != s[j] {
            assert forall|i: int, j: int| 0 <= i < j < f.len() implies f[i] != f[j] by {
                if j < f0.len() {
                    assert(f[i] == f0[i] && f[j] == f0[j]);
                    assert(forall|a: int, b: int| 0 <= a < b < pre.len() ==> pre[a] != pre[b]);
                } else {
                    assert(f[i] == f0[i]);
                    let k = choose|k: int| 0 <= k < pre.len() && pre[k] == f0[i];
                    assert(s[k] == f[i]);
                    assert(f[j] == s[s.len() - 1]);
                }
            }
        }
    }
}

pub proof fn lemma_kept_files(old_rows: Seq<Entry>, scan: Seq<(i32, DirEntry)>, files: Seq<File>)
    ensures
        forall|j: int| 0 <= j < kept_files(old_rows, scan, files).len() ==> exists|i: int|
            0 <= i < files.len() && updated_file(old_rows, scan, files[i]) == Some(
                #[trigger] kept_files(old_rows, scan, files)[j],
            ),
    decreases files.len(),
{
    if files.len() > 0 {
        let pre = files.drop_last();
        lemma_kept_files(old_rows, scan, pre);
        let k0 = kept_files(old_rows, scan, pre);
        let k = kept_files(old_rows, scan, files);
        assert forall|j: int| 0 <= j < k.len() implies exists|i: int|
            0 <= i < files.len() && updated_file(old_rows, scan, files[i]) == Some(#[trigger] k[j]) by {
            if j < k0.len() {
                assert(k[j] == k0[j]);
                let i = choose|i: int| 0 <= i < pre.len() && updated_file(old_rows, scan, pre[i]) == Some(k0[j]);
                assert(files[i] == pre[i]);
            } else {
                assert(updated_file(old_rows, scan, files[files.len() - 1]) == Some(k[j]));
            }
        }
    }
}

pub proof fn lemma_fresh_file_sources(entries: Seq<Entry>, scan: Seq<(i32, DirEntry)>, files: Seq<File>, n: int)
    requires
        n <= entries.len(),
    ensures
        forall|j: int| 0 <= j < fresh_file_sources(entries, scan, files, n).len() ==> exists|i: int|
            0 <= i < n && entries[i].id == (#[trigger] fresh_file_sources(entries, scan, files, n)[j]).0,
    decreases n,
{
    if n > 0 {
        lemma_fresh_file_sources(entries, scan, files, n - 1);
        let s0 = fresh_file_sources(entries, scan, files, n - 1);
        let s = fresh_file_sources(entries, scan, files, n);
        let tail = fresh_files_for(entries[n - 1], scan, files);
        assert forall|j: int| 0 <= j < s.len() implies exists|i: int| 0 <= i < n && entries[i].id == (#[trigger] s[j]).0 by {
            if j < s0.len() {
                assert(s[j] == s0[j]);
            } else {
                assert(s[j] == tail[j - s0.len()]);
                assert(entries[n - 1].id == s[j].0);
            }
        }
    }
}

/// Whether the association survives reconciliation: its entry does.
pub open spec fn link_survives(old_rows: Seq<Entry>, scan: Seq<(i32, DirEntry)>) -> spec_fn(Entry2Label) -> bool {
    |l: Entry2Label| match first_match(old_rows, entry_with_id(l.entry_id)) {
        Some(i) => agg_index(scan, old_rows[i].path@) is Some,
        None => false,
    }
}

/// The associations whose entries survive reconciliation.
fn keep_links(
    rows: &Vec<Entry>,
    aggs: &Vec<Option<usize>>,
    links: &Vec<Entry2Label>,
    Ghost(scan): Ghost<Seq<(i32, DirEntry)>>,
) -> (r: Vec<Entry2Label>)
    requires
        ids_ascending(rows@),
        aggs@.len() == rows@.len(),
        forall|i: int| 0 <= i < rows@.len() ==> match #[trigger] aggs@[i] {
            Some(k) => agg_index(scan, rows@[i].path@) == Some(k as int),
            None => agg_index(scan, rows@[i].path@) is None,
        },
    ensures
        r@ == links@.filter(link_survives(rows@, scan)),
{
    let mut kept: Vec<Entry2Label> = Vec::new();
    let mut i: usize = 0;
    while i < links.len()
        invariant
            i <= links@.len(),
            ids_ascending(rows@),
            aggs@.len() == rows@.len(),
            forall|i: int| 0 <= i < rows@.len() ==> match #[trigger] aggs@[i] {
                Some(k) => agg_index(scan, rows@[i].path@) == Some(k as int),
                None => agg_index(scan, rows@[i].path@) is None,
            },
            kept@ == links@.take(i as int).filter(link_survives(rows@, scan)),
        decreases links@.len() - i,
    {
        let l = links[i];
        assert(links@.take(i + 1) =~= links@.take(i as int).push(l));
        proof {
            links@.take(i as int).lemma_filter_push(l, link_survives(rows@, scan));
        }
        let keep = match index_of_id(rows, l.entry_id) {
            Some(owner) => aggs[owner].is_some(),
            None => false,
        };
        if keep {
            kept.push(l);
        }
        assert(kept@ =~= links@.take(i + 1).filter(link_survives(rows@, scan)));
        i = i + 1;
    }
    assert(links@.take(links@.len() as int) =~= links@);
    kept
}

/// The entry rows after reconciling rows `old_rows` against `scan`, new rows
/// taking ids from `base` on.
pub open spec fn reconciled_entries(old_rows: Seq<Entry>, scan: Seq<(i32, DirEntry)>, base: int) -> Seq<Entry> {
    kept_entries(old_rows, scan) + fresh_entries(old_rows, scan, base)
}

/// How many entry rows reconciliation inserts.
pub open spec fn fresh_entry_count(old_rows: Seq<Entry>, scan: Seq<(i32, DirEntry)>) -> int {
    fresh_aggs(old_rows, scan, scan.len() as int).len() as int
}

/// What `Store::update` makes of `old_s` with scan `scan_in`: `new_s` and
/// the result `r`.
pub open spec fn update_result(old_s: Store, new_s: Store, scan: Seq<(i32, DirEntry)>, r: Result<(), StoreError>) -> bool {
    let old_e = old_s.entry_rows();
    let old_f = old_s.file_rows();
    let base = old_s.next_id() as int;
    let n_e = fresh_entry_count(old_e, scan);
    let new_e = reconciled_entries(old_e, scan, base);
    let srcs = fresh_file_sources(new_e, scan, old_f, new_e.len() as int);
    &&& (r is Err <==> base + n_e + srcs.len() > i32::MAX)
    &&& r is Err ==> r == Err::<(), StoreError>(StoreError::IdsExhausted) && new_s == old_s
    &&& r is Ok ==> {
        &&& new_s.entry_rows() == new_e
        &&& new_s.file_rows() == kept_files(old_e, scan, old_f) + fresh_files(new_e, scan, old_f, base + n_e)
        &&& new_s.link_rows() == old_s.link_rows().filter(link_survives(old_e, scan))
        &&& new_s.label_rows() == old_s.label_rows()
        &&& new_s.location_rows() == old_s.location_rows()
        &&& new_s.filter_rows() == old_s.filter_rows()
        &&& new_s.url() == old_s.url()
        &&& new_s.next_id() == base + n_e + srcs.len()
        &&& new_s.journal() == old_s.journal() + entry_writes(old_e, scan) + fresh_entries(old_e, scan, base).map_values(
            |e: Entry| Write::InsertEntry(e),
        ) + file_writes(old_e, scan, old_f) + fresh_files(new_e, scan, old_f, base + n_e).map_values(
            |f: File| Write::InsertFile(f),
        )
    }
}

impl Store {
    /// An empty catalog for the backend at `db_url`.
    pub fn init(db_url: &str) -> (r: Store)
        ensures
            r.wf(),
            r.url() == db_url@,
            r.entry_rows().len() == 0,
            r.file_rows().len() == 0,
            r.label_rows().len() == 0,
            r.link_rows().len() == 0,
            r.location_rows().len() == 0,
            r.filter_rows().len() == 0,
            r.journal().len() == 0,
            r.next_id() == 1,
    {
        let store = Store {
            db_url: db_url.to_owned(),
            locations: Vec::new(),
            entries: Vec::new(),
            files: Vec::new(),
            labels: Vec::new(),
            links: Vec::new(),
            label_filters: Vec::new(),
            next_id: 1,
            files_cache: HashMap::new(),
            label_lookup: HashMap::new(),
            entry_label_lookup: HashMap::new(),
            writes: Vec::new(),
        };
        proof {
            assert forall|id: i32| !labels_of(store.links@, id).is_empty() implies false by {
                let l = labels_of(store.links@, id).choose();
                assert(labels_of(store.links@, id).contains(l));
            }
            assert forall|id: i32| !entries_of(store.links@, id).is_empty() implies false by {
                let e = entries_of(store.links@, id).choose();
                assert(entries_of(store.links@, id).contains(e));
            }
        }
        store
    }

    /// Everything but the read indices is as in `other`.
    pub closed spec fn same_rows(&self, other: &Store) -> bool {
        &&& self.db_url == other.db_url
        &&& self.locations == other.locations
        &&& self.entries == other.entries
        &&& self.files == other.files
        &&& self.labels == other.labels
        &&& self.links == other.links
        &&& self.label_filters == other.label_filters
        &&& self.next_id == other.next_id
        &&& self.writes == other.writes
    }

    /// Rebuilds every read index from the rows.
    fn reload(&mut self)
        ensures
            final(self).same_rows(old(self)),
            final(self).caches_wf(),
            old(self).rows_wf() ==> final(self).rows_wf(),
    {
        self.files_cache = build_files_cache(&self.entries, &self.files);
        let (by_entry, by_label) = build_label_lookups(&self.links);
        self.entry_label_lookup = by_entry;
        self.label_lookup = by_label;
    }

    /// Reconciles the catalog with a scan: entry rows whose path the scan
    /// lacks are deleted with their files and labels; surviving rows take the
    /// size of the aggregate at their path; each path of the scan without a
    /// row gets a new one; and the file rows of each entry are reconciled in
    /// the same way against the files of its aggregate. Where a path occurs
    /// more than once, its first occurrence stands for it.
    ///
    /// Every aggregate must be as a scan makes it, its size the sum of its
    /// files, so that each entry's size is that sum.
    ///
    /// Fails, changing nothing, when the new rows do not fit in the id space.
    pub fn update(&mut self, dir_entries: &Vec<(i32, DirEntry)>) -> (r: Result<(), StoreError>)
        requires
            old(self).wf(),
            forall|k: int| 0 <= k < dir_entries@.len() ==> (#[trigger] dir_entries@[k]).1.wf(),
        ensures
            final(self).wf(),
            update_result(*old(self), *final(self), dir_entries@, r),
    {
        let ghost scan = dir_entries@;
        let ghost old_s = *self;
        let ghost old_e = self.entries@;
        let ghost old_f = self.files@;
        let base = self.next_id;
        let mut writes: Vec<Write> = Vec::new();
        let (kept, aggs, kept_aggs) = keep_entries(&self.entries, dir_entries, &mut writes);
        let fresh_k = fresh_agg_list(&self.entries, dir_entries);
        proof {
            lemma_fresh_aggs(old_e, scan, scan.len() as int);
        }
        if fresh_k.len() > (i32::MAX - base) as usize {
            return Err(StoreError::IdsExhausted);
        }
        let fresh = make_entries(&self.entries, dir_entries, &fresh_k, base, &mut writes);
        let base_files = base + fresh_k.len() as i32;
        let mut new_entries = kept;
        let mut fresh_rows = fresh;
        new_entries.append(&mut fresh_rows);
        let mut eaggs = kept_aggs;
        let mut fresh_aggs_v = fresh_k;
        let ghost fa = fresh_aggs(old_e, scan, scan.len() as int);
        eaggs.append(&mut fresh_aggs_v);
        let ghost new_e = new_entries@;
        proof {
            let kept_s = kept_entries(old_e, scan);
            assert(new_e == reconciled_entries(old_e, scan, base as int));
            assert forall|j: int| 0 <= j < new_e.len() implies #[trigger] eaggs@[j] < scan.len()
                && agg_index(scan, new_e[j].path@) == Some(eaggs@[j] as int) by {
                if j >= kept_s.len() {
                    let q = j - kept_s.len();
                    assert(eaggs@[j] as int == fa[q]);
                    assert(is_fresh_agg(old_e, scan, fa[q]));
                }
            }
            assert forall|id: i32| !(#[trigger] self.files_cache@.contains_key(id)) implies files_of(old_f, id).len() == 0 by {
                lemma_filter_sub(old_f, |f: File| f.entry_id == id);
                if files_of(old_f, id).len() > 0 {
                    let g = files_of(old_f, id)[0];
                    let i = choose|i: int| 0 <= i < old_f.len() && old_f[i] == g;
                    assert(old_f[i].id < self.next_id);
                    assert(has_entry_id(self.entries@, old_f[i].entry_id));
                    assert(self.files_cache@.contains_key(g.entry_id));
                }
            }
        }
        let srcs = fresh_file_list(&new_entries, &eaggs, &self.files_cache, &self.files, dir_entries);
        proof {
            assert(srcs@.len() == fresh_file_sources(new_e, scan, old_f, new_e.len() as int).len());
        }
        if srcs.len() > (i32::MAX - base_files) as usize {
            return Err(StoreError::IdsExhausted);
        }
        let mut new_files = keep_files(&self.entries, &aggs, &self.files, dir_entries, &mut writes);
        let mut fresh_files_v = make_files(dir_entries, &srcs, base_files, &mut writes);
        new_files.append(&mut fresh_files_v);
        let new_links = keep_links(&self.entries, &aggs, &self.links, Ghost(scan));
        proof {
            lemma_rows_after_update(*self, new_e, new_files@, new_links@, scan, base as int, base_files as int, srcs@.len() as int);
        }
        self.entries = new_entries;
        self.files = new_files;
        self.links = new_links;
        self.next_id = base_files + srcs.len() as i32;
        self.writes.append(&mut writes);
        self.reload();
        proof {
            let new_s = *self;
            assert(new_s.entry_rows() == reconciled_entries(old_e, scan, base as int));
            assert(new_s.journal() =~= old_s.journal() + entry_writes(old_e, scan) + fresh_entries(old_e, scan, base as int).map_values(
                |e: Entry| Write::InsertEntry(e),
            ) + file_writes(old_e, scan, old_f) + fresh_files(new_e, scan, old_f, base_files as int).map_values(
                |f: File| Write::InsertFile(f),
            ));
        }
        Ok(())
    }
}

proof fn lemma_rows_after_update(
    s: Store,
    new_e: Seq<Entry>,
    new_f: Seq<File>,
    new_l: Seq<Entry2Label>,
    scan: Seq<(i32, DirEntry)>,
    base: int,
    base_files: int,
    n_f: int,
)
    requires
        s.rows_wf(),
        base == s.next_id,
        new_e == reconciled_entries(s.entries@, scan, base),
        base_files == base + fresh_entry_count(s.entries@, scan),
        new_f == kept_files(s.entries@, scan, s.files@) + fresh_files(new_e, scan, s.files@, base_files),
        n_f == fresh_file_sources(new_e, scan, s.files@, new_e.len() as int).len(),
        base_files + n_f <= i32::MAX,
        new_l == s.links@.filter(link_survives(s.entries@, scan)),
    ensures
        ids_ascending(new_e),
        paths_unique(new_e),
        forall|i: int| 0 <= i < new_e.len() ==> #[trigger] new_e[i].id < base_files + n_f,
        forall|i: int| 0 <= i < new_f.len() ==> {
            &&& #[trigger] new_f[i].id < base_files + n_f
            &&& has_entry_id(new_e, new_f[i].entry_id)
        },
        forall|i: int| 0 <= i < new_l.len() ==> {
            &&& has_entry_id(new_e, #[trigger] new_l[i].entry_id)
            &&& has_label_id(s.labels@, new_l[i].label_id)
        },
        links_unique(new_l),
{
    let old_e = s.entries@;
    let kept = kept_entries(old_e, scan);
    let src = kept_sources(old_e, scan);
    let fa = fresh_aggs(old_e, scan, scan.len() as int);
    let fresh = fresh_entries(old_e, scan, base);
    lemma_kept_entries(old_e, scan);
    lemma_fresh_aggs(old_e, scan, scan.len() as int);
    assert(new_e == kept + fresh);
    assert forall|q: int| 0 <= q < fresh.len() implies {
        &&& #[trigger] fresh[q].id == base + q
        &&& fresh[q].path == scan[fa[q]].1.path
        &&& agg_index(scan, fresh[q].path@) == Some(fa[q])
        &&& forall|i: int| 0 <= i < old_e.len() ==> old_e[i].path@ != fresh[q].path@
    } by {
        assert(is_fresh_agg(old_e, scan, fa[q]));
        lemma_first_match(old_e, entry_at(scan[fa[q]].1.path@));
        assert forall|i: int| 0 <= i < old_e.len() implies old_e[i].path@ != fresh[q].path@ by {
            assert(!entry_at(scan[fa[q]].1.path@)(old_e[i]));
        }
    }
    assert forall|j: int| 0 <= j < kept.len() implies #[trigger] kept[j].id < base && kept[j].path == old_e[src[j]].path
        && kept[j].id == old_e[src[j]].id by {
        assert(0 <= src[j] < old_e.len());
    }
    assert forall|i: int, j: int| 0 <= i < j < new_e.len() implies new_e[i].id < new_e[j].id by {
        if j < kept.len() {
            assert(src[i] < src[j]);
            assert(kept[i].id == old_e[src[i]].id);
            assert(kept[j].id == old_e[src[j]].id);
        } else if i < kept.len() {
            assert(new_e[j] == fresh[j - kept.len()]);
        } else {
            assert(new_e[j] == fresh[j - kept.len()]);
            assert(new_e[i] == fresh[i - kept.len()]);
        }
    }
    assert forall|i: int, j: int| 0 <= i < j < new_e.len() implies new_e[i].path@ != new_e[j].path@ by {
        if j < kept.len() {
            assert(src[i] < src[j]);
            assert(kept[i].path == old_e[src[i]].path);
            assert(kept[j].path == old_e[src[j]].path);
        } else if i < kept.len() {
            assert(new_e[j] == fresh[j - kept.len()]);
            assert(kept[i].path == old_e[src[i]].path);
        } else {
            let qa = i - kept.len();
            let q2 = j - kept.len();
            assert(new_e[j] == fresh[q2]);
            assert(new_e[i] == fresh[qa]);
            assert(fa[qa] < fa[q2]);
        }
    }
    assert forall|i: int| 0 <= i < new_e.len() implies #[trigger] new_e[i].id < base_files + n_f by {
        if i >= kept.len() {
            assert(new_e[i] == fresh[i - kept.len()]);
        }
    }
    // Every entry row that survives has a row in the new table.
    assert forall|o: int| 0 <= o < old_e.len() && agg_index(scan, old_e[o].path@) is Some
        implies has_entry_id(new_e, old_e[o].id) by {
        let j = choose|j: int| 0 <= j < src.len() && src[j] == o;
        assert(new_e[j] == kept[j]);
    }
    let kf = kept_files(old_e, scan, s.files@);
    let ff = fresh_files(new_e, scan, s.files@, base_files);
    let srcs = fresh_file_sources(new_e, scan, s.files@, new_e.len() as int);
    lemma_kept_files(old_e, scan, s.files@);
    lemma_fresh_file_sources(new_e, scan, s.files@, new_e.len() as int);
    assert forall|i: int| 0 <= i < new_f.len() implies {
        &&& #[trigger] new_f[i].id < base_files + n_f
        &&& has_entry_id(new_e, new_f[i].entry_id)
    } by {
        if i < kf.len() {
            assert(new_f[i] == kf[i]);
            let x = choose|x: int| 0 <= x < s.files@.len() && updated_file(old_e, scan, s.files@[x]) == Some(kf[i]);
            let f = s.files@[x];
            assert(f.id < s.next_id);
            let o = first_match(old_e, entry_with_id(f.entry_id)).unwrap();
            lemma_first_match(old_e, entry_with_id(f.entry_id));
            assert(old_e[o].id == f.entry_id);
        } else {
            let q = i - kf.len();
            assert(new_f[i] == ff[q]);
            assert(ff[q] == new_file(srcs[q], base_files + q));
            let w = choose|w: int| 0 <= w < new_e.len() && new_e[w].id == srcs[q].0;
        }
    }
    let pred = link_survives(old_e, scan);
    lemma_filter_sub(s.links@, pred);
    assert forall|i: int| 0 <= i < new_l.len() implies {
        &&& has_entry_id(new_e, #[trigger] new_l[i].entry_id)
        &&& has_label_id(s.labels@, new_l[i].label_id)
    } by {
        let l = new_l[i];
        assert(pred(l));
        let x = choose|x: int| 0 <= x < s.links@.len() && s.links@[x] == l;
        assert(has_label_id(s.labels@, s.links@[x].label_id));
        let o = first_match(old_e, entry_with_id(l.entry_id)).unwrap();
        lemma_first_match(old_e, entry_with_id(l.entry_id));
        assert(old_e[o].id == l.entry_id);
    }
}

/// The associations after adding the pairs `ps` one by one, each unless it
/// is already there.
pub open spec fn add_links(links: Seq<Entry2Label>, ps: Seq<Entry2Label>) -> Seq<Entry2Label>
    decreases ps.len(),
{
    if ps.len() == 0 {
        links
    } else {
        let prev = add_links(links, ps.drop_last());
        if prev.contains(ps.last()) {
            prev
        } else {
            prev.push(ps.last())
        }
    }
}

/// Every pair of an entry of `es` and a label of `ls`, entry by entry.
pub open spec fn pairs(es: Seq<i32>, ls: Seq<i32>) -> Seq<Entry2Label>
    decreases es.len(),
{
    if es.len() == 0 {
        Seq::empty()
    } else {
        pairs(es.drop_last(), ls) + ls.map_values(|l: i32| Entry2Label { entry_id: es.last(), label_id: l })
    }
}

/// The association is one of the pairs of `es` and `ls`.
pub open spec fn in_pairs(es: Seq<i32>, ls: Seq<i32>) -> spec_fn(Entry2Label) -> bool {
    |x: Entry2Label| es.contains(x.entry_id) && ls.contains(x.label_id)
}

pub proof fn lemma_add_links_contains(links: Seq<Entry2Label>, ps: Seq<Entry2Label>)
    ensures
        forall|x: Entry2Label| #[trigger] add_links(links, ps).contains(x) <==> links.contains(x) || ps.contains(x),
        add_links(links, ps).len() >= links.len(),
        forall|i: int| 0 <= i < links.len() ==> #[trigger] add_links(links, ps)[i] == links[i],
    decreases ps.len(),
{
    if ps.len() > 0 {
        let pre = ps.drop_last();
        lemma_add_links_contains(links, pre);
        assert forall|x: Entry2Label| #[trigger] add_links(links, ps).contains(x) <==> links.contains(x) || ps.contains(x) by {
            let prev = add_links(links, pre);
            if pre.contains(x) {
                let i = choose|i: int| 0 <= i < pre.len() && pre[i] == x;
                assert(ps[i] == x);
            }
            if ps.contains(x) && x != ps.last() {
                let i = choose|i: int| 0 <= i < ps.len() && ps[i] == x;
                assert(i < ps.len() - 1);
                assert(pre[i] == x);
            }
            if !prev.contains(ps.last()) {
                assert(prev.push(ps.last())[prev.len() as int] == ps.last());
                if prev.contains(x) {
                    let i = choose|i: int| 0 <= i < prev.len() && prev[i] == x;
                    assert(prev.push(ps.last())[i] == x);
                }
                if prev.push(ps.last()).contains(x) && x != ps.last() {
                    let i = choose|i: int| 0 <= i < prev.len() + 1 && prev.push(ps.last())[i] == x;
                    assert(prev[i] == x);
                }
            }
        }
    }
}

pub proof fn lemma_pairs_contains(es: Seq<i32>, ls: Seq<i32>)
    ensures
        forall|x: Entry2Label| #[trigger] pairs(es, ls).contains(x) <==> in_pairs(es, ls)(x),
    decreases es.len(),
{
    if es.len() > 0 {
        let pre = es.drop_last();
        lemma_pairs_contains(pre, ls);
        let tail = ls.map_values(|l: i32| Entry2Label { entry_id: es.last(), label_id: l });
        assert forall|x: Entry2Label| #[trigger] pairs(es, ls).contains(x) <==> in_pairs(es, ls)(x) by {
            let prev = pairs(pre, ls);
            let p = pairs(es, ls);
            assert(p == prev + tail);
            if p.contains(x) {
                let i = choose|i: int| 0 <= i < p.len() && p[i] == x;
                if i < prev.len() {
                    assert(prev[i] == x);
                    assert(prev.contains(x));
                    let a = choose|a: int| 0 <= a < pre.len() && pre[a] == x.entry_id;
                    assert(es[a] == x.entry_id);
                } else {
                    assert(tail[i - prev.len()] == x);
                    assert(es[es.len() - 1] == x.entry_id);
                    assert(ls[i - prev.len()] == x.label_id);
                }
            }
            if in_pairs(es, ls)(x) {
                let a = choose|a: int| 0 <= a < es.len() && es[a] == x.entry_id;
                let b = choose|b: int| 0 <= b < ls.len() && ls[b] == x.label_id;
                if a < es.len() - 1 {
                    assert(pre[a] == x.entry_id);
                    assert(prev.contains(x));
                    let i = choose|i: int| 0 <= i < prev.len() && prev[i] == x;
                    assert(p[i] == x);
                } else {
                    assert(tail[b] == x);
                    assert(p[prev.len() + b] == x);
                }
            }
        }
    }
}

/// Every pair of `es` and `ls` names an existing entry and label.
pub open spec fn pairs_valid(entries: Seq<Entry>, labels: Seq<Label>, es: Seq<i32>, ls: Seq<i32>) -> bool {
    es.len() == 0 || ls.len() == 0 || {
        &&& forall|i: int| 0 <= i < es.len() ==> has_entry_id(entries, #[trigger] es[i])
        &&& forall|j: int| 0 <= j < ls.len() ==> has_label_id(labels, #[trigger] ls[j])
    }
}

fn has_label_row(labels: &Vec<Label>, id: i32) -> (r: bool)
    ensures
        r == has_label_id(labels@, id),
{
    let mut i: usize = 0;
    while i < labels.len()
        invariant
            i <= labels@.len(),
            forall|j: int| 0 <= j < i ==> #[trigger] labels@[j].id != id,
        decreases labels@.len() - i,
    {
        if labels[i].id == id {
            return true;
        }
        i = i + 1;
    }
    false
}

fn contains_link(links: &Vec<Entry2Label>, x: Entry2Label) -> (r: bool)
    ensures
        r == links@.contains(x),
{
    let mut i: usize = 0;
    while i < links.len()
        invariant
            i <= links@.len(),
            forall|j: int| 0 <= j < i ==> #[trigger] links@[j] != x,
        decreases links@.len() - i,
    {
        if links[i] == x {
            assert(links@[i as int] == x);
            return true;
        }
        i = i + 1;
    }
    false
}

fn contains_id(ids: &Vec<i32>, x: i32) -> (r: bool)
    ensures
        r == ids@.contains(x),
{
    let mut i: usize = 0;
    while i < ids.len()
        invariant
            i <= ids@.len(),
            forall|j: int| 0 <= j < i ==> #[trigger] ids@[j] != x,
        decreases ids@.len() - i,
    {
        if ids[i] == x {
            return true;
        }
        i = i + 1;
    }
    false
}

impl Store {
    /// The keys that a well-formed catalog keeps.
    pub proof fn lemma_keys(&self)
        requires
            self.wf(),
        ensures
            ids_ascending(self.entry_rows()),
            paths_unique(self.entry_rows()),
            label_names_unique(self.label_rows()),
            links_unique(self.link_rows()),
            self.entry_rows().len() <= usize::MAX,
            forall|i: int| 0 <= i < self.entry_rows().len() ==> #[trigger] self.entry_rows()[i].id < self.next_id(),
            forall|i: int| 0 <= i < self.file_rows().len() ==> has_entry_id(self.entry_rows(), #[trigger] self.file_rows()[i].entry_id),
            forall|i: int| 0 <= i < self.link_rows().len() ==> has_entry_id(self.entry_rows(), #[trigger] self.link_rows()[i].entry_id),
            forall|i: int| 0 <= i < self.link_rows().len() ==> has_label_id(self.label_rows(), #[trigger] self.link_rows()[i].label_id),
    {
        assert forall|i: int| 0 <= i < self.link_rows().len() implies has_label_id(self.label_rows(), #[trigger] self.link_rows()[i].label_id) by {
            assert(has_entry_id(self.entries@, self.links@[i].entry_id));
        }
        assert(self.entries@.len() == self.entries.len());
        assert forall|i: int| 0 <= i < self.file_rows().len() implies has_entry_id(self.entry_rows(), #[trigger] self.file_rows()[i].entry_id) by {
            assert(self.files@[i].id < self.next_id);
        }
    }

    /// Takes the journal of writes made since it was last taken.
    #[verifier::spinoff_prover]
    pub fn take_writes(&mut self) -> (r: Vec<Write>)
        requires
            old(self).wf(),
        ensures
            final(self).wf(),
            r@ == old(self).journal(),
            final(self).journal().len() == 0,
            final(self).entry_rows() == old(self).entry_rows(),
            final(self).file_rows() == old(self).file_rows(),
            final(self).label_rows() == old(self).label_rows(),
            final(self).link_rows() == old(self).link_rows(),
            final(self).location_rows() == old(self).location_rows(),
            final(self).filter_rows() == old(self).filter_rows(),
            final(self).next_id() == old(self).next_id(),
            final(self).url() == old(self).url(),
    {
        let mut out: Vec<Write> = Vec::new();
        std::mem::swap(&mut out, &mut self.writes);
        out
    }

    /// The entry rows, in ascending id order.
    pub fn get_all_entries(&self) -> (r: &Vec<Entry>)
        ensures
            r@ == self.entry_rows(),
    {
        &self.entries
    }

    /// The file rows of `entry`, or `None` where no entry has its id.
    pub fn get_files(&self, entry: &Entry) -> (r: Option<&Vec<File>>)
        requires
            self.wf(),
        ensures
            match r {
                Some(v) => has_entry_id(self.entry_rows(), entry.id) && v@ == files_of(self.file_rows(), entry.id),
                None => !has_entry_id(self.entry_rows(), entry.id),
            },
    {
        self.files_cache.get(&entry.id)
    }

    /// The label rows.
    pub fn get_all_labels(&self) -> (r: &Vec<Label>)
        ensures
            r@ == self.label_rows(),
    {
        &self.labels
    }

    /// The labels attached to entry `entry_id`, or `None` where it has none.
    pub fn entry_labels(&self, entry_id: i32) -> (r: Option<&HashSet<i32>>)
        requires
            self.wf(),
        ensures
            match r {
                Some(s) => !labels_of(self.link_rows(), entry_id).is_empty() && s@ == labels_of(self.link_rows(), entry_id),
                None => labels_of(self.link_rows(), entry_id).is_empty(),
            },
    {
        self.entry_label_lookup.get(&entry_id)
    }

    /// Whether label `label_id` is attached to entry `entry_id`.
    pub fn has_label(&self, entry_id: i32, label_id: i32) -> (r: bool)
        requires
            self.wf(),
        ensures
            r == self.link_rows().contains(Entry2Label { entry_id, label_id }),
    {
        match self.label_lookup.get(&label_id) {
            Some(entries) => {
                assert(entries@ == entries_of(self.links@, label_id));
                entries.contains(&entry_id)
            },
            None => {
                assert(!entries_of(self.links@, label_id).contains(entry_id));
                false
            },
        }
    }

    /// The ids of the labels attached to entry `entry_id`, in label row
    /// order.
    pub fn dir_labels(&self, entry_id: i32) -> (r: Vec<i32>)
        requires
            self.wf(),
        ensures
            r@ == self.label_rows().filter(|l: Label| self.link_rows().contains(Entry2Label { entry_id, label_id: l.id })).map_values(
                |l: Label| l.id,
            ),
    {
        let ghost pred = |l: Label| self.links@.contains(Entry2Label { entry_id, label_id: l.id });
        let mut out: Vec<i32> = Vec::new();
        let mut i: usize = 0;
        while i < self.labels.len()
            invariant
                self.wf(),
                i <= self.labels@.len(),
                pred == (|l: Label| self.links@.contains(Entry2Label { entry_id, label_id: l.id })),
                out@ == self.labels@.take(i as int).filter(pred).map_values(|l: Label| l.id),
            decreases self.labels@.len() - i,
        {
            let l = &self.labels[i];
            assert(self.labels@.take(i + 1) =~= self.labels@.take(i as int).push(*l));
            proof {
                self.labels@.take(i as int).lemma_filter_push(*l, pred);
            }
            if self.has_label(entry_id, l.id) {
                out.push(l.id);
            }
            assert(out@ =~= self.labels@.take(i + 1).filter(pred).map_values(|l: Label| l.id));
            i = i + 1;
        }
        assert(self.labels@.take(self.labels@.len() as int) =~= self.labels@);
        out
    }

    /// Adds a label named `name`, unless one of that exact name exists or
    /// no id is left; returns whether it was added.
    pub fn add_label(&mut self, name: &str) -> (r: bool)
        requires
            old(self).wf(),
        ensures
            final(self).wf(),
            r == ((!exists|i: int| 0 <= i < old(self).label_rows().len() && #[trigger] old(self).label_rows()[i].name@ == name@)
                && old(self).next_id() < i32::MAX),
            r ==> {
                let l = Label { id: old(self).next_id(), name: final(self).label_rows().last().name };
                &&& final(self).label_rows() == old(self).label_rows().push(l)
                &&& l.name@ == name@
                &&& final(self).journal() == old(self).journal().push(Write::InsertLabel(l))
                &&& final(self).next_id() == old(self).next_id() + 1
                &&& final(self).entry_rows() == old(self).entry_rows()
                &&& final(self).file_rows() == old(self).file_rows()
                &&& final(self).link_rows() == old(self).link_rows()
                &&& final(self).location_rows() == old(self).location_rows()
                &&& final(self).filter_rows() == old(self).filter_rows()
                &&& final(self).url() == old(self).url()
            },
            !r ==> *final(self) == *old(self),
    {
        let owned = name.to_owned();
        let mut i: usize = 0;
        while i < self.labels.len()
            invariant
                i <= self.labels@.len(),
                self.wf(),
                *self == *old(self),
                owned@ == name@,
                forall|j: int| 0 <= j < i ==> #[trigger] self.labels@[j].name@ != name@,
            decreases self.labels@.len() - i,
        {
            if self.labels[i].name == owned {
                assert(old(self).label_rows()[i as int].name@ == name@);
                return false;
            }
            i = i + 1;
        }
        let ghost old_labels = self.labels@;
        if self.next_id == i32::MAX {
            assert(old(self).next_id() == i32::MAX);
            return false;
        }
        let l = Label { id: self.next_id, name: owned };
        self.writes.push(Write::InsertLabel(l.duplicate()));
        self.labels.push(l);
        self.next_id = self.next_id + 1;
        proof {
            assert forall|a: int| 0 <= a < self.labels@.len() implies #[trigger] self.labels@[a].id < self.next_id by {}
            assert forall|a: int| 0 <= a < self.links@.len() implies has_label_id(self.labels@, #[trigger] self.links@[a].label_id) by {
                assert(has_entry_id(self.entries@, self.links@[a].entry_id));
                assert(has_label_id(old_labels, self.links@[a].label_id));
                let w = choose|w: int| 0 <= w < old_labels.len() && #[trigger] old_labels[w].id == self.links@[a].label_id;
                assert(self.labels@[w].id == self.links@[a].label_id);
            }
        }
        self.reload();
        true
    }
}

/// A file row stays when the entry row it belongs to does.
pub open spec fn owner_kept(entries: Seq<Entry>, keep: spec_fn(Entry) -> bool) -> spec_fn(File) -> bool {
    |f: File| match first_match(entries, entry_with_id(f.entry_id)) {
        Some(i) => keep(entries[i]),
        None => false,
    }
}

/// An association stays when the entry row it belongs to does.
pub open spec fn link_owner_kept(entries: Seq<Entry>, keep: spec_fn(Entry) -> bool) -> spec_fn(Entry2Label) -> bool {
    |l: Entry2Label| match first_match(entries, entry_with_id(l.entry_id)) {
        Some(i) => keep(entries[i]),
        None => false,
    }
}

proof fn lemma_filter_entries(entries: Seq<Entry>, keep: spec_fn(Entry) -> bool)
    requires
        ids_ascending(entries),
        paths_unique(entries),
    ensures
        ids_ascending(entries.filter(keep)),
        paths_unique(entries.filter(keep)),
        forall|i: int| 0 <= i < entries.filter(keep).len() ==> keep(#[trigger] entries.filter(keep)[i])
            && entries.contains(entries.filter(keep)[i]),
        forall|i: int| 0 <= i < entries.len() && keep(entries[i]) ==> has_entry_id(entries.filter(keep), #[trigger] entries[i].id),
    decreases entries.len(),
{
    lemma_filter_sub(entries, keep);
    if entries.len() > 0 {
        let pre = entries.drop_last();
        let last = entries.last();
        assert(entries =~= pre.push(last));
        pre.lemma_filter_push(last, keep);
        lemma_filter_entries(pre, keep);
        let f0 = pre.filter(keep);
        let f = entries.filter(keep);
        assert forall|i: int| 0 <= i < f0.len() implies #[trigger] f0[i].id < last.id && f0[i].path@ != last.path@ by {
            let k = choose|k: int| 0 <= k < pre.len() && pre[k] == f0[i];
            assert(entries[k] == pre[k]);
        }
        assert forall|i: int| 0 <= i < entries.len() && keep(entries[i]) implies has_entry_id(f, #[trigger] entries[i].id) by {
            if i < entries.len() - 1 {
                assert(pre[i] == entries[i]);
                let w = choose|w: int| 0 <= w < f0.len() && #[trigger] f0[w].id == pre[i].id;
                assert(f[w] == f0[w]);
            } else {
                assert(f[f.len() - 1] == last);
            }
        }
    }
}

impl Store {
    /// Deletes the entry rows that `keep` rejects, with their files and
    /// associations; `flags` holds `keep` of each row.
    fn cascade_entries(&mut self, flags: &Vec<bool>, Ghost(keep): Ghost<spec_fn(Entry) -> bool>)
        requires
            old(self).rows_wf(),
            flags@.len() == old(self).entries@.len(),
            forall|i: int| 0 <= i < flags@.len() ==> #[trigger] flags@[i] == keep(old(self).entries@[i]),
        ensures
            final(self).wf(),
            final(self).entries@ == old(self).entries@.filter(keep),
            final(self).files@ == old(self).files@.filter(owner_kept(old(self).entries@, keep)),
            final(self).links@ == old(self).links@.filter(link_owner_kept(old(self).entries@, keep)),
            final(self).labels == old(self).labels,
            final(self).locations == old(self).locations,
            final(self).label_filters == old(self).label_filters,
            final(self).next_id == old(self).next_id,
            final(self).writes == old(self).writes,
            final(self).db_url == old(self).db_url,
    {
        let ghost old_e = self.entries@;
        let mut entries: Vec<Entry> = Vec::new();
        let mut i: usize = 0;
        while i < self.entries.len()
            invariant
                i <= self.entries@.len(),
                self.entries@ == old_e,
                flags@.len() == old_e.len(),
                forall|i: int| 0 <= i < flags@.len() ==> #[trigger] flags@[i] == keep(old_e[i]),
                entries@ == old_e.take(i as int).filter(keep),
            decreases self.entries@.len() - i,
        {
            assert(old_e.take(i + 1) =~= old_e.take(i as int).push(old_e[i as int]));
            proof {
                old_e.take(i as int).lemma_filter_push(old_e[i as int], keep);
            }
            if flags[i] {
                entries.push(self.entries[i].duplicate());
            }
            i = i + 1;
        }
        assert(old_e.take(old_e.len() as int) =~= old_e);
        let ghost fk = owner_kept(old_e, keep);
        let mut files: Vec<File> = Vec::new();
        let mut k: usize = 0;
        while k < self.files.len()
            invariant
                k <= self.files@.len(),
                self.entries@ == old_e,
                ids_ascending(old_e),
                flags@.len() == old_e.len(),
                forall|i: int| 0 <= i < flags@.len() ==> #[trigger] flags@[i] == keep(old_e[i]),
                fk == owner_kept(old_e, keep),
                files@ == self.files@.take(k as int).filter(fk),
            decreases self.files@.len() - k,
        {
            let f = &self.files[k];
            assert(self.files@.take(k + 1) =~= self.files@.take(k as int).push(*f));
            proof {
                self.files@.take(k as int).lemma_filter_push(*f, fk);
            }
            let stays = match index_of_id(&self.entries, f.entry_id) {
                Some(o) => flags[o],
                None => false,
            };
            if stays {
                files.push(f.duplicate());
            }
            k = k + 1;
        }
        assert(self.files@.take(self.files@.len() as int) =~= self.files@);
        let ghost lk = link_owner_kept(old_e, keep);
        let mut links: Vec<Entry2Label> = Vec::new();
        let mut k: usize = 0;
        while k < self.links.len()
            invariant
                k <= self.links@.len(),
                self.entries@ == old_e,
                ids_ascending(old_e),
                flags@.len() == old_e.len(),
                forall|i: int| 0 <= i < flags@.len() ==> #[trigger] flags@[i] == keep(old_e[i]),
                lk == link_owner_kept(old_e, keep),
                links@ == self.links@.take(k as int).filter(lk),
            decreases self.links@.len() - k,
        {
            let l = self.links[k];
            assert(self.links@.take(k + 1) =~= self.links@.take(k as int).push(l));
            proof {
                self.links@.take(k as int).lemma_filter_push(l, lk);
            }
            let stays = match index_of_id(&self.entries, l.entry_id) {
                Some(o) => flags[o],
                None => false,
            };
            if stays {
                links.push(l);
            }
            k = k + 1;
        }
        assert(self.links@.take(self.links@.len() as int) =~= self.links@);
        proof {
            lemma_filter_entries(old_e, keep);
            lemma_filter_sub(self.files@, fk);
            lemma_filter_sub(self.links@, lk);
            let ne = old_e.filter(keep);
            assert forall|i: int| 0 <= i < ne.len() implies #[trigger] ne[i].id < self.next_id by {
                let w = choose|w: int| 0 <= w < old_e.len() && old_e[w] == ne[i];
            }
            assert forall|i: int| 0 <= i < files@.len() implies {
                &&& #[trigger] files@[i].id < self.next_id
                &&& has_entry_id(ne, files@[i].entry_id)
            } by {
                let f = files@[i];
                assert(fk(f));
                let w = choose|w: int| 0 <= w < self.files@.len() && self.files@[w] == f;
                assert(self.files@[w].id < self.next_id);
                lemma_first_match(old_e, entry_with_id(f.entry_id));
                let o = first_match(old_e, entry_with_id(f.entry_id)).unwrap();
                assert(old_e[o].id == f.entry_id);
            }
            assert forall|i: int| 0 <= i < links@.len() implies {
                &&& has_entry_id(ne, #[trigger] links@[i].entry_id)
                &&& has_label_id(self.labels@, links@[i].label_id)
            } by {
                let l = links@[i];
                assert(lk(l));
                let w = choose|w: int| 0 <= w < self.links@.len() && self.links@[w] == l;
                assert(has_entry_id(old_e, self.links@[w].entry_id));
                lemma_first_match(old_e, entry_with_id(l.entry_id));
                let o = first_match(old_e, entry_with_id(l.entry_id)).unwrap();
                assert(old_e[o].id == l.entry_id);
            }
        }
        self.entries = entries;
        self.files = files;
        self.links = links;
        self.reload();
    }

    /// Deletes entry `id` with its files and labels.
    pub fn remove_entry(&mut self, id: i32)
        requires
            old(self).wf(),
        ensures
            final(self).wf(),
            final(self).entry_rows() == old(self).entry_rows().filter(|e: Entry| e.id != id),
            final(self).file_rows() == old(self).file_rows().filter(|f: File| f.entry_id != id),
            final(self).link_rows() == old(self).link_rows().filter(|l: Entry2Label| l.entry_id != id),
            final(self).label_rows() == old(self).label_rows(),
            final(self).location_rows() == old(self).location_rows(),
            final(self).filter_rows() == old(self).filter_rows(),
            final(self).next_id() == old(self).next_id(),
            final(self).url() == old(self).url(),
            final(self).journal() == old(self).journal().push(Write::DeleteEntry(id)),
    {
        let ghost keep = |e: Entry| e.id != id;
        let mut flags: Vec<bool> = Vec::new();
        let mut i: usize = 0;
        while i < self.entries.len()
            invariant
                i <= self.entries@.len(),
                flags@.len() == i,
                keep == (|e: Entry| e.id != id),
                forall|j: int| 0 <= j < i ==> #[trigger] flags@[j] == keep(self.entries@[j]),
            decreases self.entries@.len() - i,
        {
            flags.push(self.entries[i].id != id);
            assert(keep(self.entries@[i as int]) == (self.entries@[i as int].id != id));
            i = i + 1;
        }
        let ghost old_e = self.entries@;
        let ghost old_f = self.files@;
        let ghost old_l = self.links@;
        self.writes.push(Write::DeleteEntry(id));
        self.cascade_entries(&flags, Ghost(keep));
        proof {
            assert forall|f: File| old_f.contains(f) implies #[trigger] owner_kept(old_e, keep)(f) == (f.entry_id != id) by {
                let w = choose|w: int| 0 <= w < old_f.len() && old_f[w] == f;
                assert(old_f[w].id < old(self).next_id);
                lemma_first_match(old_e, entry_with_id(f.entry_id));
            }
            lemma_filter_congruent(old_f, owner_kept(old_e, keep), |f: File| f.entry_id != id);
            assert forall|l: Entry2Label| old_l.contains(l) implies #[trigger] link_owner_kept(old_e, keep)(l) == (l.entry_id != id) by {
                let w = choose|w: int| 0 <= w < old_l.len() && old_l[w] == l;
                assert(has_entry_id(old_e, old_l[w].entry_id));
                lemma_first_match(old_e, entry_with_id(l.entry_id));
            }
            lemma_filter_congruent(old_l, link_owner_kept(old_e, keep), |l: Entry2Label| l.entry_id != id);
        }
    }
}

/// Filters that agree on the elements of a sequence give the same result.
pub proof fn lemma_filter_congruent<T>(s: Seq<T>, p: spec_fn(T) -> bool, q: spec_fn(T) -> bool)
    requires
        forall|x: T| s.contains(x) ==> p(x) == q(x),
    ensures
        s.filter(p) == s.filter(q),
    decreases s.len(),
{
    if s.len() > 0 {
        let pre = s.drop_last();
        assert(s =~= pre.push(s.last()));
        pre.lemma_filter_push(s.last(), p);
        pre.lemma_filter_push(s.last(), q);
        assert forall|x: T| pre.contains(x) implies p(x) == q(x) by {
            let i = choose|i: int| 0 <= i < pre.len() && pre[i] == x;
            assert(s[i] == x);
            assert(s.contains(x));
        }
        assert(s.contains(s.last()) ) by {
            assert(s[s.len() - 1] == s.last());
        }
        lemma_filter_congruent(pre, p, q);
    }
}

proof fn lemma_filter_labels(labels: Seq<Label>, p: spec_fn(Label) -> bool)
    requires
        label_ids_unique(labels),
        label_names_unique(labels),
    ensures
        label_ids_unique(labels.filter(p)),
        label_names_unique(labels.filter(p)),
        forall|i: int| 0 <= i < labels.filter(p).len() ==> p(#[trigger] labels.filter(p)[i]) && labels.contains(labels.filter(p)[i]),
        forall|i: int| 0 <= i < labels.len() && p(labels[i]) ==> has_label_id(labels.filter(p), #[trigger] labels[i].id),
    decreases labels.len(),
{
    lemma_filter_sub(labels, p);
    if labels.len() > 0 {
        let pre = labels.drop_last();
        let last = labels.last();
        assert(labels =~= pre.push(last));
        pre.lemma_filter_push(last, p);
        lemma_filter_labels(pre, p);
        let f0 = pre.filter(p);
        let f = labels.filter(p);
        assert forall|i: int| 0 <= i < f0.len() implies #[trigger] f0[i].id != last.id && f0[i].name@ != last.name@ by {
            let k = choose|k: int| 0 <= k < pre.len() && pre[k] == f0[i];
            assert(labels[k] == pre[k]);
        }
        assert forall|i: int| 0 <= i < labels.len() && p(labels[i]) implies has_label_id(f, #[trigger] labels[i].id) by {
            if i < labels.len() - 1 {
                assert(pre[i] == labels[i]);
                let w = choose|w: int| 0 <= w < f0.len() && #[trigger] f0[w].id == pre[i].id;
                assert(f[w] == f0[w]);
            } else {
                assert(f[f.len() - 1] == last);
            }
        }
    }
}

/// The filter row has id `id`.
pub open spec fn filter_with_id(id: i32) -> spec_fn(LabelAutoFilter) -> bool {
    |f: LabelAutoFilter| f.id == id
}


impl Store {
    /// Deletes file `id`.
    #[verifier::spinoff_prover]
    pub fn remove_file(&mut self, id: i32)
        requires
            old(self).wf(),
        ensures
            final(self).wf(),
            final(self).file_rows() == old(self).file_rows().filter(|f: File| f.id != id),
            final(self).entry_rows() == old(self).entry_rows(),
            final(self).link_rows() == old(self).link_rows(),
            final(self).label_rows() == old(self).label_rows(),
            final(self).location_rows() == old(self).location_rows(),
            final(self).filter_rows() == old(self).filter_rows(),
            final(self).next_id() == old(self).next_id(),
            final(self).url() == old(self).url(),
            final(self).journal() == old(self).journal().push(Write::DeleteFile(id)),
    {
        let ghost p = |f: File| f.id != id;
        let mut files: Vec<File> = Vec::new();
        let mut k: usize = 0;
        while k < self.files.len()
            invariant
                k <= self.files@.len(),
                self.rows_wf(),
                *self == *old(self),
                p == (|f: File| f.id != id),
                files@ == self.files@.take(k as int).filter(p),
            decreases self.files@.len() - k,
        {
            let f = &self.files[k];
            assert(self.files@.take(k + 1) =~= self.files@.take(k as int).push(*f));
            proof {
                self.files@.take(k as int).lemma_filter_push(*f, p);
            }
            if f.id != id {
                files.push(f.duplicate());
            }
            k = k + 1;
        }
        assert(self.files@.take(self.files@.len() as int) =~= self.files@);
        proof {
            lemma_filter_sub(self.files@, p);
            assert forall|i: int| 0 <= i < files@.len() implies {
                &&& #[trigger] files@[i].id < self.next_id
                &&& has_entry_id(self.entries@, files@[i].entry_id)
            } by {
                let w = choose|w: int| 0 <= w < self.files@.len() && self.files@[w] == files@[i];
                assert(self.files@[w].id < self.next_id);
            }
        }
        self.files = files;
        self.writes.push(Write::DeleteFile(id));
        assert(self.rows_wf());
        self.reload();
    }

    /// Deletes label `id`, its associations and the filters that target it.
    pub fn remove_label(&mut self, id: i32)
        requires
            old(self).wf(),
        ensures
            final(self).wf(),
            final(self).label_rows() == old(self).label_rows().filter(|l: Label| l.id != id),
            final(self).link_rows() == old(self).link_rows().filter(|l: Entry2Label| l.label_id != id),
            final(self).filter_rows() == old(self).filter_rows().filter(|f: LabelAutoFilter| f.label_id != id),
            final(self).entry_rows() == old(self).entry_rows(),
            final(self).file_rows() == old(self).file_rows(),
            final(self).location_rows() == old(self).location_rows(),
            final(self).next_id() == old(self).next_id(),
            final(self).url() == old(self).url(),
            final(self).journal() == old(self).journal().push(Write::DeleteLabel(id)),
    {
        let ghost pl = |l: Label| l.id != id;
        let mut labels: Vec<Label> = Vec::new();
        let mut k: usize = 0;
        while k < self.labels.len()
            invariant
                k <= self.labels@.len(),
                pl == (|l: Label| l.id != id),
                labels@ == self.labels@.take(k as int).filter(pl),
            decreases self.labels@.len() - k,
        {
            let l = &self.labels[k];
            assert(self.labels@.take(k + 1) =~= self.labels@.take(k as int).push(*l));
            proof {
                self.labels@.take(k as int).lemma_filter_push(*l, pl);
            }
            if l.id != id {
                labels.push(l.duplicate());
            }
            k = k + 1;
        }
        assert(self.labels@.take(self.labels@.len() as int) =~= self.labels@);
        let ghost pk = |l: Entry2Label| l.label_id != id;
        let mut links: Vec<Entry2Label> = Vec::new();
        let mut k: usize = 0;
        while k < self.links.len()
            invariant
                k <= self.links@.len(),
                pk == (|l: Entry2Label| l.label_id != id),
                links@ == self.links@.take(k as int).filter(pk),
            decreases self.links@.len() - k,
        {
            let l = self.links[k];
            assert(self.links@.take(k + 1) =~= self.links@.take(k as int).push(l));
            proof {
                self.links@.take(k as int).lemma_filter_push(l, pk);
            }
            if l.label_id != id {
                links.push(l);
            }
            k = k + 1;
        }
        assert(self.links@.take(self.links@.len() as int) =~= self.links@);
        let ghost pf = |f: LabelAutoFilter| f.label_id != id;
        let mut filters: Vec<LabelAutoFilter> = Vec::new();
        let mut k: usize = 0;
        while k < self.label_filters.len()
            invariant
                k <= self.label_filters@.len(),
                pf == (|f: LabelAutoFilter| f.label_id != id),
                filters@ == self.label_filters@.take(k as int).filter(pf),
            decreases self.label_filters@.len() - k,
        {
            let f = &self.label_filters[k];
            assert(self.label_filters@.take(k + 1) =~= self.label_filters@.take(k as int).push(*f));
            proof {
                self.label_filters@.take(k as int).lemma_filter_push(*f, pf);
            }
            if f.label_id != id {
                filters.push(f.duplicate());
            }
            k = k + 1;
        }
        assert(self.label_filters@.take(self.label_filters@.len() as int) =~= self.label_filters@);
        proof {
            lemma_filter_labels(self.labels@, pl);
            lemma_filter_sub(self.links@, pk);
            lemma_filter_sub(self.label_filters@, pf);
            assert forall|i: int| 0 <= i < labels@.len() implies #[trigger] labels@[i].id < self.next_id by {
                let w = choose|w: int| 0 <= w < self.labels@.len() && self.labels@[w] == labels@[i];
            }
            assert forall|i: int| 0 <= i < filters@.len() implies #[trigger] filters@[i].id < self.next_id by {
                let w = choose|w: int| 0 <= w < self.label_filters@.len() && self.label_filters@[w] == filters@[i];
            }
            assert forall|i: int| 0 <= i < links@.len() implies {
                &&& has_entry_id(self.entries@, #[trigger] links@[i].entry_id)
                &&& has_label_id(labels@, links@[i].label_id)
            } by {
                let l = links@[i];
                assert(pk(l));
                let w = choose|w: int| 0 <= w < self.links@.len() && self.links@[w] == l;
                assert(has_entry_id(self.entries@, self.links@[w].entry_id));
                let x = choose|x: int| 0 <= x < self.labels@.len() && #[trigger] self.labels@[x].id == l.label_id;
                assert(pl(self.labels@[x]));
            }
        }
        self.labels = labels;
        self.links = links;
        self.label_filters = filters;
        self.writes.push(Write::DeleteLabel(id));
        self.reload();
    }

    /// Deletes location `id`, and with it the entries under it, their files
    /// and their labels.
    pub fn remove_location(&mut self, id: i32)
        requires
            old(self).wf(),
        ensures
            final(self).wf(),
            final(self).location_rows() == old(self).location_rows().filter(|l: Location| l.id != id),
            final(self).entry_rows() == old(self).entry_rows().filter(|e: Entry| e.location_id != id),
            final(self).file_rows() == old(self).file_rows().filter(
                owner_kept(old(self).entry_rows(), |e: Entry| e.location_id != id),
            ),
            final(self).link_rows() == old(self).link_rows().filter(
                link_owner_kept(old(self).entry_rows(), |e: Entry| e.location_id != id),
            ),
            final(self).label_rows() == old(self).label_rows(),
            final(self).filter_rows() == old(self).filter_rows(),
            final(self).next_id() == old(self).next_id(),
            final(self).url() == old(self).url(),
            final(self).journal() == old(self).journal().push(Write::DeleteLocation(id)),
    {
        let ghost keep = |e: Entry| e.location_id != id;
        let mut flags: Vec<bool> = Vec::new();
        let mut i: usize = 0;
        while i < self.entries.len()
            invariant
                i <= self.entries@.len(),
                flags@.len() == i,
                keep == (|e: Entry| e.location_id != id),
                forall|j: int| 0 <= j < i ==> #[trigger] flags@[j] == keep(self.entries@[j]),
            decreases self.entries@.len() - i,
        {
            flags.push(self.entries[i].location_id != id);
            assert(keep(self.entries@[i as int]) == (self.entries@[i as int].location_id != id));
            i = i + 1;
        }
        let ghost pl = |l: Location| l.id != id;
        let mut locations: Vec<Location> = Vec::new();
        let mut k: usize = 0;
        while k < self.locations.len()
            invariant
                k <= self.locations@.len(),
                pl == (|l: Location| l.id != id),
                locations@ == self.locations@.take(k as int).filter(pl),
            decreases self.locations@.len() - k,
        {
            let l = &self.locations[k];
            assert(self.locations@.take(k + 1) =~= self.locations@.take(k as int).push(*l));
            proof {
                self.locations@.take(k as int).lemma_filter_push(*l, pl);
            }
            if l.id != id {
                locations.push(l.duplicate());
            }
            k = k + 1;
        }
        assert(self.locations@.take(self.locations@.len() as int) =~= self.locations@);
        proof {
            lemma_filter_sub(self.locations@, pl);
            assert forall|i: int| 0 <= i < locations@.len() implies #[trigger] locations@[i].id < self.next_id by {
                let w = choose|w: int| 0 <= w < self.locations@.len() && self.locations@[w] == locations@[i];
            }
        }
        self.locations = locations;
        self.writes.push(Write::DeleteLocation(id));
        self.cascade_entries(&flags, Ghost(keep));
    }

    /// Sets the grade of the entry with the id of `entry`.
    pub fn set_grade(&mut self, entry: Entry, grade: i32) -> (r: Result<(), StoreError>)
        requires
            old(self).wf(),
        ensures
            final(self).wf(),
            r is Err <==> !has_entry_id(old(self).entry_rows(), entry.id),
            r is Err ==> r == Err::<(), StoreError>(StoreError::NotFound) && *final(self) == *old(self),
            r is Ok ==> {
                let i = first_match(old(self).entry_rows(), entry_with_id(entry.id)).unwrap();
                let e = old(self).entry_rows()[i];
                let n = Entry { id: e.id, location_id: e.location_id, name: e.name, path: e.path, size: e.size, grade: Some(grade) };
                &&& final(self).entry_rows() == old(self).entry_rows().update(i, n)
                &&& final(self).journal() == old(self).journal().push(Write::UpdateEntry(n))
                &&& final(self).file_rows() == old(self).file_rows()
                &&& final(self).link_rows() == old(self).link_rows()
                &&& final(self).label_rows() == old(self).label_rows()
                &&& final(self).location_rows() == old(self).location_rows()
                &&& final(self).filter_rows() == old(self).filter_rows()
                &&& final(self).next_id() == old(self).next_id()
                &&& final(self).url() == old(self).url()
            },
    {
        let i = match index_of_id(&self.entries, entry.id) {
            Some(i) => i,
            None => return Err(StoreError::NotFound),
        };
        let e = &self.entries[i];
        let n = Entry {
            id: e.id,
            location_id: e.location_id,
            name: e.name.clone(),
            path: e.path.clone(),
            size: e.size,
            grade: Some(grade),
        };
        let ghost old_e = self.entries@;
        self.writes.push(Write::UpdateEntry(n.duplicate()));
        self.entries.set(i, n);
        proof {
            lemma_same_ids_paths(old_e, self.entries@);
            assert(self.entries@ == old_e.update(i as int, self.entries@[i as int]));
        }
        self.reload();
        Ok(())
    }
}

/// Entry rows with the same ids and paths position by position share the
/// keys that the catalog relies on.
proof fn lemma_same_ids_paths(a: Seq<Entry>, b: Seq<Entry>)
    requires
        a.len() == b.len(),
        forall|i: int| 0 <= i < a.len() ==> #[trigger] a[i].id == b[i].id,
    ensures
        ids_ascending(a) ==> ids_ascending(b),
        forall|id: i32| has_entry_id(a, id) ==> has_entry_id(b, id),
{
    assert forall|id: i32| has_entry_id(a, id) implies has_entry_id(b, id) by {
        let w = choose|w: int| 0 <= w < a.len() && #[trigger] a[w].id == id;
        assert(b[w].id == id);
    }
    if ids_ascending(a) {
        assert forall|i: int, j: int| 0 <= i < j < b.len() implies b[i].id < b[j].id by {
            assert(a[i].id == b[i].id && a[j].id == b[j].id);
        }
    }
}

impl Store {
    /// Attaches every label of `label_ids` to every entry of `entry_ids`,
    /// skipping pairs that are already attached. All pairs are added, or
    /// none when one of them names an entry or label that does not exist.
    pub fn add_entry_labels(&mut self, entry_ids: Vec<i32>, label_ids: Vec<i32>) -> (r: Result<(), StoreError>)
        requires
            old(self).wf(),
        ensures
            final(self).wf(),
            r is Ok <==> pairs_valid(old(self).entry_rows(), old(self).label_rows(), entry_ids@, label_ids@),
            r is Err ==> r == Err::<(), StoreError>(StoreError::NotFound) && *final(self) == *old(self),
            r is Ok ==> {
                let links = add_links(old(self).link_rows(), pairs(entry_ids@, label_ids@));
                &&& final(self).link_rows() == links
                &&& final(self).journal() == old(self).journal() + links.skip(old(self).link_rows().len() as int).map_values(
                    |l: Entry2Label| Write::InsertEntryLabel(l),
                )
                &&& final(self).entry_rows() == old(self).entry_rows()
                &&& final(self).file_rows() == old(self).file_rows()
                &&& final(self).label_rows() == old(self).label_rows()
                &&& final(self).location_rows() == old(self).location_rows()
                &&& final(self).filter_rows() == old(self).filter_rows()
                &&& final(self).next_id() == old(self).next_id()
                &&& final(self).url() == old(self).url()
            },
    {
        if entry_ids.len() > 0 && label_ids.len() > 0 {
            let mut i: usize = 0;
            while i < entry_ids.len()
                invariant
                    i <= entry_ids@.len(),
                    self.wf(),
                    *self == *old(self),
                    label_ids@.len() > 0,
                    forall|a: int| 0 <= a < i ==> has_entry_id(self.entries@, #[trigger] entry_ids@[a]),
                decreases entry_ids@.len() - i,
            {
                if index_of_id(&self.entries, entry_ids[i]).is_none() {
                    assert(!has_entry_id(self.entries@, entry_ids@[i as int]));
                    return Err(StoreError::NotFound);
                }
                i = i + 1;
            }
            let mut j: usize = 0;
            while j < label_ids.len()
                invariant
                    j <= label_ids@.len(),
                    self.wf(),
                    *self == *old(self),
                    entry_ids@.len() > 0,
                    forall|b: int| 0 <= b < j ==> has_label_id(self.labels@, #[trigger] label_ids@[b]),
                decreases label_ids@.len() - j,
            {
                if !has_label_row(&self.labels, label_ids[j]) {
                    assert(!has_label_id(self.labels@, label_ids@[j as int]));

                    return Err(StoreError::NotFound);
                }
                j = j + 1;
            }
        }
        let ghost old_links = self.links@;
        let ghost es = entry_ids@;
        let ghost ls = label_ids@;
        let mut i: usize = 0;
        while i < entry_ids.len()
            invariant
                i <= es.len(),
                es == entry_ids@,
                ls == label_ids@,
                pairs_valid(self.entries@, self.labels@, es, ls),
                self.rows_wf(),
                self.links@ == add_links(old_links, pairs(es.take(i as int), ls)),
                self.writes@ == old(self).writes@ + self.links@.skip(old_links.len() as int).map_values(
                    |l: Entry2Label| Write::InsertEntryLabel(l),
                ),
                self.links@.len() >= old_links.len(),
                forall|x: int| 0 <= x < old_links.len() ==> #[trigger] self.links@[x] == old_links[x],
                self.entries == old(self).entries,
                self.files == old(self).files,
                self.labels == old(self).labels,
                self.locations == old(self).locations,
                self.label_filters == old(self).label_filters,
                self.next_id == old(self).next_id,
                self.db_url == old(self).db_url,
            decreases es.len() - i,
        {
            let e = entry_ids[i];
            let ghost before = pairs(es.take(i as int), ls);
            assert(es.take(i + 1).drop_last() =~= es.take(i as int));
            let mut j: usize = 0;
            while j < label_ids.len()
                invariant
                    j <= ls.len(),
                    i < es.len(),
                    e == es[i as int],
                    es == entry_ids@,
                    ls == label_ids@,
                    pairs_valid(self.entries@, self.labels@, es, ls),
                    self.rows_wf(),
                    self.links@ == add_links(old_links, before + ls.take(j as int).map_values(|l: i32| Entry2Label { entry_id: e, label_id: l })),
                    self.writes@ == old(self).writes@ + self.links@.skip(old_links.len() as int).map_values(
                        |l: Entry2Label| Write::InsertEntryLabel(l),
                    ),
                    self.links@.len() >= old_links.len(),
                    forall|x: int| 0 <= x < old_links.len() ==> #[trigger] self.links@[x] == old_links[x],
                    self.entries == old(self).entries,
                    self.files == old(self).files,
                    self.labels == old(self).labels,
                    self.locations == old(self).locations,
                    self.label_filters == old(self).label_filters,
                    self.next_id == old(self).next_id,
                    self.db_url == old(self).db_url,
                decreases ls.len() - j,
            {
                let pair = Entry2Label { entry_id: e, label_id: label_ids[j] };
                let ghost ps0 = before + ls.take(j as int).map_values(|l: i32| Entry2Label { entry_id: e, label_id: l });
                let ghost ps1 = before + ls.take(j + 1).map_values(|l: i32| Entry2Label { entry_id: e, label_id: l });
                assert(ps1.drop_last() =~= ps0);
                assert(ps1.last() == pair);
                let ghost links_before = self.links@;
                if !contains_link(&self.links, pair) {
                    self.links.push(pair);
                    self.writes.push(Write::InsertEntryLabel(pair));
                    proof {
                        assert(self.links@.skip(old_links.len() as int) =~= links_before.skip(old_links.len() as int).push(pair));
                        assert(self.writes@ =~= old(self).writes@ + self.links@.skip(old_links.len() as int).map_values(
                            |l: Entry2Label| Write::InsertEntryLabel(l),
                        ));
                        assert forall|a: int, b: int| 0 <= a < b < self.links@.len() implies self.links@[a] != self.links@[b] by {
                            if b == self.links@.len() - 1 {
                                assert(links_before[a] == self.links@[a]);
                            } else {
                                assert(links_before[a] == self.links@[a] && links_before[b] == self.links@[b]);
                            }
                        }
                        assert(has_entry_id(self.entries@, es[i as int]));
                        assert(has_label_id(self.labels@, ls[j as int]));
                        assert forall|a: int| 0 <= a < self.links@.len() implies {
                            &&& has_entry_id(self.entries@, #[trigger] self.links@[a].entry_id)
                            &&& has_label_id(self.labels@, self.links@[a].label_id)
                        } by {
                            if a < links_before.len() {
                                assert(links_before[a] == self.links@[a]);
                            }
                        }
                        assert(self.rows_wf());
                    }
                }
                j = j + 1;
            }
            proof {
                assert(ls.take(ls.len() as int) =~= ls);
                assert(pairs(es.take(i + 1), ls) == before + ls.map_values(|l: i32| Entry2Label { entry_id: e, label_id: l }));
            }
            i = i + 1;
        }
        assert(es.take(es.len() as int) =~= es);
        assert(self.rows_wf());
        self.reload();
        Ok(())
    }

    /// Detaches every label of `label_ids` from every entry of `entry_ids`.
    pub fn remove_entry_labels(&mut self, entry_ids: Vec<i32>, label_ids: Vec<i32>)
        requires
            old(self).wf(),
        ensures
            final(self).wf(),
            final(self).link_rows() == old(self).link_rows().filter(|x: Entry2Label| !in_pairs(entry_ids@, label_ids@)(x)),
            final(self).journal() == old(self).journal() + old(self).link_rows().filter(in_pairs(entry_ids@, label_ids@)).map_values(
                |l: Entry2Label| Write::DeleteEntryLabel(l),
            ),
            final(self).entry_rows() == old(self).entry_rows(),
            final(self).file_rows() == old(self).file_rows(),
            final(self).label_rows() == old(self).label_rows(),
            final(self).location_rows() == old(self).location_rows(),
            final(self).filter_rows() == old(self).filter_rows(),
            final(self).next_id() == old(self).next_id(),
            final(self).url() == old(self).url(),
    {
        let ghost keep = |x: Entry2Label| !in_pairs(entry_ids@, label_ids@)(x);
        let ghost gone = in_pairs(entry_ids@, label_ids@);
        let mut links: Vec<Entry2Label> = Vec::new();
        let mut k: usize = 0;
        while k < self.links.len()
            invariant
                k <= self.links@.len(),
                keep == (|x: Entry2Label| !in_pairs(entry_ids@, label_ids@)(x)),
                gone == in_pairs(entry_ids@, label_ids@),
                links@ == self.links@.take(k as int).filter(keep),
                self.writes@ == old(self).writes@ + self.links@.take(k as int).filter(gone).map_values(
                    |l: Entry2Label| Write::DeleteEntryLabel(l),
                ),
                self.links == old(self).links,
                self.entries == old(self).entries,
                self.files == old(self).files,
                self.labels == old(self).labels,
                self.locations == old(self).locations,
                self.label_filters == old(self).label_filters,
                self.next_id == old(self).next_id,
                self.db_url == old(self).db_url,
            decreases self.links@.len() - k,
        {
            let l = self.links[k];
            assert(self.links@.take(k + 1) =~= self.links@.take(k as int).push(l));
            proof {
                self.links@.take(k as int).lemma_filter_push(l, keep);
                self.links@.take(k as int).lemma_filter_push(l, gone);
            }
            if contains_id(&entry_ids, l.entry_id) && contains_id(&label_ids, l.label_id) {
                self.writes.push(Write::DeleteEntryLabel(l));
                assert(self.links@.take(k + 1).filter(gone).map_values(|l: Entry2Label| Write::DeleteEntryLabel(l)) =~= self.links@.take(k as int).filter(gone).map_values(|l: Entry2Label| Write::DeleteEntryLabel(l)).push(Write::DeleteEntryLabel(l)));
            } else {
                links.push(l);
            }
            k = k + 1;
        }
        assert(self.links@.take(self.links@.len() as int) =~= self.links@);
        proof {
            lemma_filter_sub(self.links@, keep);
            assert forall|i: int| 0 <= i < links@.len() implies {
                &&& has_entry_id(self.entries@, #[trigger] links@[i].entry_id)
                &&& has_label_id(self.labels@, links@[i].label_id)
            } by {
                let w = choose|w: int| 0 <= w < self.links@.len() && self.links@[w] == links@[i];
                assert(has_entry_id(self.entries@, self.links@[w].entry_id));
            }
        }
        self.links = links;
        self.reload();
    }

    /// Adds a location of size zero; fails when no id is left.
    pub fn add_location(&mut self, name: &str, path: &str) -> (r: Result<(), StoreError>)
        requires
            old(self).wf(),
        ensures
            final(self).wf(),
            r is Err <==> old(self).next_id() == i32::MAX,
            r is Err ==> r == Err::<(), StoreError>(StoreError::IdsExhausted) && *final(self) == *old(self),
            r is Ok ==> {
                let l = final(self).location_rows().last();
                &&& final(self).location_rows() == old(self).location_rows().push(l)
                &&& l.id == old(self).next_id() && l.name@ == name@ && l.path@ == path@ && l.size == 0
                &&& final(self).journal() == old(self).journal().push(Write::InsertLocation(l))
                &&& final(self).next_id() == old(self).next_id() + 1
                &&& final(self).entry_rows() == old(self).entry_rows()
                &&& final(self).file_rows() == old(self).file_rows()
                &&& final(self).link_rows() == old(self).link_rows()
                &&& final(self).label_rows() == old(self).label_rows()
                &&& final(self).filter_rows() == old(self).filter_rows()
                &&& final(self).url() == old(self).url()
            },
    {
        if self.next_id == i32::MAX {
            return Err(StoreError::IdsExhausted);
        }
        let l = Location { id: self.next_id, name: name.to_owned(), path: path.to_owned(), size: 0 };
        self.writes.push(Write::InsertLocation(l.duplicate()));
        self.locations.push(l);
        self.next_id = self.next_id + 1;
        self.reload();
        Ok(())
    }

    /// The location rows.
    pub fn get_locations(&self) -> (r: Vec<Location>)
        ensures
            r@ == self.location_rows(),
    {
        let mut out: Vec<Location> = Vec::new();
        let mut i: usize = 0;
        while i < self.locations.len()
            invariant
                i <= self.locations@.len(),
                out@ == self.locations@.take(i as int),
            decreases self.locations@.len() - i,
        {
            out.push(self.locations[i].duplicate());
            assert(out@ =~= self.locations@.take(i + 1));
            i = i + 1;
        }
        assert(self.locations@.take(self.locations@.len() as int) =~= self.locations@);
        out
    }

    /// The label filter rows.
    pub fn get_label_filters(&self) -> (r: Vec<LabelAutoFilter>)
        ensures
            r@ == self.filter_rows(),
    {
        let mut out: Vec<LabelAutoFilter> = Vec::new();
        let mut i: usize = 0;
        while i < self.label_filters.len()
            invariant
                i <= self.label_filters@.len(),
                out@ == self.label_filters@.take(i as int),
            decreases self.label_filters@.len() - i,
        {
            out.push(self.label_filters[i].duplicate());
            assert(out@ =~= self.label_filters@.take(i + 1));
            i = i + 1;
        }
        assert(self.label_filters@.take(self.label_filters@.len() as int) =~= self.label_filters@);
        out
    }

    /// Stores `filter`: a positive id replaces the row with that id, any
    /// other id adds a row under a new id.
    pub fn add_update_label_filter(&mut self, filter: &LabelAutoFilter) -> (r: Result<(), StoreError>)
        requires
            old(self).wf(),
        ensures
            final(self).wf(),
            filter.id > 0 ==> (r is Err <==> first_match(old(self).filter_rows(), filter_with_id(filter.id)) is None),
            filter.id <= 0 ==> (r is Err <==> old(self).next_id() == i32::MAX),
            r is Err ==> *final(self) == *old(self),
            r is Ok ==> {
                &&& filter.id > 0 ==> {
                    let i = first_match(old(self).filter_rows(), filter_with_id(filter.id)).unwrap();
                    &&& final(self).filter_rows() == old(self).filter_rows().update(i, *filter)
                    &&& final(self).journal() == old(self).journal().push(Write::UpdateLabelFilter(*filter))
                    &&& final(self).next_id() == old(self).next_id()
                }
                &&& filter.id <= 0 ==> {
                    let n = LabelAutoFilter { id: old(self).next_id(), name: filter.name, filter: filter.filter, label_id: filter.label_id };
                    &&& final(self).filter_rows() == old(self).filter_rows().push(n)
                    &&& final(self).journal() == old(self).journal().push(Write::InsertLabelFilter(n))
                    &&& final(self).next_id() == old(self).next_id() + 1
                }
                &&& final(self).entry_rows() == old(self).entry_rows()
                &&& final(self).file_rows() == old(self).file_rows()
                &&& final(self).link_rows() == old(self).link_rows()
                &&& final(self).label_rows() == old(self).label_rows()
                &&& final(self).location_rows() == old(self).location_rows()
                &&& final(self).url() == old(self).url()
            },
    {
        let ghost p = filter_with_id(filter.id);
        if filter.id > 0 {
            let mut i: usize = 0;
            while i < self.label_filters.len()
                invariant
                    i <= self.label_filters@.len(),
                    self.wf(),
                    *self == *old(self),
                    filter.id > 0,
                    p == filter_with_id(filter.id),
                    forall|j: int| 0 <= j < i ==> !p(#[trigger] self.label_filters@[j]),
                decreases self.label_filters@.len() - i,
            {
                if self.label_filters[i].id == filter.id {
                    proof {
                        lemma_first_match_at(self.label_filters@, p, i as int);
                    }
                    let ghost old_f = self.label_filters@;
                    self.label_filters.set(i, filter.duplicate());
                    self.writes.push(Write::UpdateLabelFilter(filter.duplicate()));
                    assert forall|a: int| 0 <= a < self.label_filters@.len() implies #[trigger] self.label_filters@[a].id < self.next_id by {
                        assert(old_f[a].id < self.next_id);
                        assert(p(old_f[i as int]));
                    }
                    self.reload();
                    return Ok(());
                }
                i = i + 1;
            }
            proof {
                lemma_first_match_none(self.label_filters@, p);
            }
            Err(StoreError::NotFound)
        } else {
            if self.next_id == i32::MAX {
                return Err(StoreError::IdsExhausted);
            }
            let n = LabelAutoFilter {
                id: self.next_id,
                name: filter.name.clone(),
                filter: filter.filter.clone(),
                label_id: filter.label_id,
            };
            self.writes.push(Write::InsertLabelFilter(n.duplicate()));
            self.label_filters.push(n);
            self.next_id = self.next_id + 1;
            self.reload();
            Ok(())
        }
    }

    /// Deletes the label filter with the id of `filter`.
    pub fn delete_label_filter(&mut self, filter: &LabelAutoFilter)
        requires
            old(self).wf(),
        ensures
            final(self).wf(),
            final(self).filter_rows() == old(self).filter_rows().filter(|f: LabelAutoFilter| f.id != filter.id),
            final(self).journal() == old(self).journal().push(Write::DeleteLabelFilter(filter.id)),
            final(self).entry_rows() == old(self).entry_rows(),
            final(self).file_rows() == old(self).file_rows(),
            final(self).link_rows() == old(self).link_rows(),
            final(self).label_rows() == old(self).label_rows(),
            final(self).location_rows() == old(self).location_rows(),
            final(self).next_id() == old(self).next_id(),
            final(self).url() == old(self).url(),
    {
        let id = filter.id;
        let ghost pf = |f: LabelAutoFilter| f.id != id;
        let mut filters: Vec<LabelAutoFilter> = Vec::new();
        let mut k: usize = 0;
        while k < self.label_filters.len()
            invariant
                k <= self.label_filters@.len(),
                pf == (|f: LabelAutoFilter| f.id != id),
                filters@ == self.label_filters@.take(k as int).filter(pf),
            decreases self.label_filters@.len() - k,
        {
            let f = &self.label_filters[k];
            assert(self.label_filters@.take(k + 1) =~= self.label_filters@.take(k as int).push(*f));
            proof {
                self.label_filters@.take(k as int).lemma_filter_push(*f, pf);
            }
            if f.id != id {
                filters.push(f.duplicate());
            }
            k = k + 1;
        }
        assert(self.label_filters@.take(self.label_filters@.len() as int) =~= self.label_filters@);
        proof {
            lemma_filter_sub(self.label_filters@, pf);
            assert forall|i: int| 0 <= i < filters@.len() implies #[trigger] filters@[i].id < self.next_id by {
                let w = choose|w: int| 0 <= w < self.label_filters@.len() && self.label_filters@[w] == filters@[i];
            }
        }
        self.label_filters = filters;
        self.writes.push(Write::DeleteLabelFilter(id));
        self.reload();
    }
}

/// The file row belongs to entry `id`.
pub open spec fn file_of(id: i32) -> spec_fn(File) -> bool {
    |f: File| f.entry_id == id
}

/// Whether a relocation of entry `id` rewrites file row `k`: every row of
/// the entry when it is a directory, its first row when it is a file.
pub open spec fn is_touched(files: Seq<File>, id: i32, single: bool, k: int) -> bool {
    files[k].entry_id == id && (!single || first_match(files, file_of(id)) == Some(k))
}

/// The positions among the first `n` file rows that a relocation rewrites.
pub open spec fn touched(files: Seq<File>, id: i32, single: bool, n: int) -> Seq<int>
    decreases n,
{
    if n <= 0 {
        Seq::empty()
    } else if is_touched(files, id, single, n - 1) {
        touched(files, id, single, n - 1).push(n - 1)
    } else {
        touched(files, id, single, n - 1)
    }
}

/// `new` is `old` after entry `id` (at row `i`) was given name `name` and
/// path `path`; with `single` holding a file name and path its first file row
/// takes them, otherwise every file row of the entry has its leading entry
/// path replaced by `path`.
pub open spec fn relocated(
    old_rows: Seq<Entry>,
    old_files: Seq<File>,
    new_rows: Seq<Entry>,
    new_files: Seq<File>,
    i: int,
    name: Seq<char>,
    path: Seq<char>,
    single: Option<(Seq<char>, Seq<char>)>,
) -> bool {
    let e = old_rows[i];
    &&& new_rows.len() == old_rows.len()
    &&& forall|j: int| 0 <= j < old_rows.len() && j != i ==> #[trigger] new_rows[j] == old_rows[j]
    &&& new_rows[i].id == e.id && new_rows[i].location_id == e.location_id && new_rows[i].size == e.size
        && new_rows[i].grade == e.grade && new_rows[i].name@ == name && new_rows[i].path@ == path
    &&& new_files.len() == old_files.len()
    &&& forall|k: int| 0 <= k < old_files.len() ==> {
        let f = old_files[k];
        let g = #[trigger] new_files[k];
        if !is_touched(old_files, e.id, single is Some, k) {
            g == f
        } else {
            &&& g.id == f.id && g.entry_id == f.entry_id && g.size == f.size
            &&& match single {
                Some(nf) => g.name@ == nf.0 && g.path@ == nf.1,
                None => g.name == f.name && g.path@ == moved_path(f.path@, e.path@, path),
            }
        }
    }
}

impl Store {
    /// Gives entry row `entry_id` a new name and path, and rewrites its file
    /// rows to match.
    fn relocate(
        &mut self,
        entry_id: i32,
        name: &str,
        path: &str,
        single: Option<(&str, &str)>,
    ) -> (r: Result<(), StoreError>)
        requires
            old(self).wf(),
        ensures
            final(self).wf(),
            ({
                let rows = old(self).entry_rows();
                let files = old(self).file_rows();
                let found = first_match(rows, entry_with_id(entry_id));
                let at = first_match(rows, entry_at(path@));
                let single_v = match single {
                    Some(p) => Some((p.0@, p.1@)),
                    None => None,
                };
                &&& found is None ==> r == Err::<(), StoreError>(StoreError::NotFound)
                &&& found is Some && at is Some && at != found ==> r == Err::<(), StoreError>(StoreError::PathTaken)
                &&& found is Some && (at is None || at == found) && single is Some && first_match(files, file_of(entry_id)) is None
                    ==> r == Err::<(), StoreError>(StoreError::NotFound)
                &&& found is Some && (at is None || at == found) && (single is None || first_match(files, file_of(entry_id)) is Some)
                    ==> r is Ok
                &&& r is Err ==> *final(self) == *old(self)
                &&& r is Ok ==> {
                    &&& found is Some
                    &&& relocated(rows, files, final(self).entry_rows(), final(self).file_rows(), found.unwrap(), name@, path@, single_v)
                    &&& final(self).journal() == old(self).journal() + touched(files, entry_id, single is Some, files.len() as int).map_values(
                        |k: int| Write::UpdateFile(final(self).file_rows()[k]),
                    ) + seq![Write::UpdateEntry(final(self).entry_rows()[found.unwrap()])]
                    &&& final(self).link_rows() == old(self).link_rows()
                    &&& final(self).label_rows() == old(self).label_rows()
                    &&& final(self).location_rows() == old(self).location_rows()
                    &&& final(self).filter_rows() == old(self).filter_rows()
                    &&& final(self).next_id() == old(self).next_id()
                    &&& final(self).url() == old(self).url()
                }
            }),
    {
        let i = match index_of_id(&self.entries, entry_id) {
            Some(i) => i,
            None => return Err(StoreError::NotFound),
        };
        let path_s = path.to_owned();
        match find_entry_at(&self.entries, &path_s) {
            Some(j) => {
                if j != i {
                    return Err(StoreError::PathTaken);
                }
            },
            None => {},
        }
        let ghost single_b = single is Some;
        let ghost p_of = file_of(entry_id);
        proof {
            lemma_first_match(self.files@, p_of);
        }
        let old_path = self.entries[i].path.clone();
        let mut files: Vec<File> = Vec::new();
        let mut writes: Vec<Write> = Vec::new();
        let mut seen = false;
        let mut k: usize = 0;
        while k < self.files.len()
            invariant
                k <= self.files@.len(),
                p_of == file_of(entry_id),
                single_b == single is Some,
                old_path@ == self.entries@[i as int].path@,
                i < self.entries@.len(),
                seen == exists|j: int| 0 <= j < k && #[trigger] self.files@[j].entry_id == entry_id,
                match first_match(self.files@, p_of) {
                    Some(x) => 0 <= x < self.files@.len() && p_of(self.files@[x]) && forall|j: int| 0 <= j < x ==> !p_of(#[trigger] self.files@[j]),
                    None => forall|j: int| 0 <= j < self.files@.len() ==> !p_of(#[trigger] self.files@[j]),
                },
                files@.len() == k,
                forall|q: int| 0 <= q < k ==> {
                    let f = self.files@[q];
                    let g = #[trigger] files@[q];
                    if !is_touched(self.files@, entry_id, single_b, q) {
                        g == f
                    } else {
                        &&& g.id == f.id && g.entry_id == f.entry_id && g.size == f.size
                        &&& match single {
                            Some(nf) => g.name@ == nf.0@ && g.path@ == nf.1@,
                            None => g.name == f.name && g.path@ == moved_path(f.path@, old_path@, path@),
                        }
                    }
                },
                writes@ == touched(self.files@, entry_id, single_b, k as int).map_values(|q: int| Write::UpdateFile(files@[q])),
                forall|q: int| 0 <= q < touched(self.files@, entry_id, single_b, k as int).len() ==> 0 <= #[trigger] touched(self.files@, entry_id, single_b, k as int)[q] < k,
            decreases self.files@.len() - k,
        {
            let f = &self.files[k];
            let ghost files_before = files@;
            let ghost t0 = touched(self.files@, entry_id, single_b, k as int);
            let touch = f.entry_id == entry_id && (single.is_none() || !seen);
            proof {
                if f.entry_id == entry_id && single is Some {
                    if !seen {
                        lemma_first_match_at(self.files@, p_of, k as int);
                    } else {
                        let j = choose|j: int| 0 <= j < k && #[trigger] self.files@[j].entry_id == entry_id;
                        assert(p_of(self.files@[j]));
                    }
                }
                assert(touch == is_touched(self.files@, entry_id, single_b, k as int));
            }
            if touch {
                let g = match single {
                    Some((n, p)) => File { id: f.id, entry_id: f.entry_id, name: n.to_owned(), path: p.to_owned(), size: f.size },
                    None => File {
                        id: f.id,
                        entry_id: f.entry_id,
                        name: f.name.clone(),
                        path: replace_prefix(&f.path, &old_path, path),
                        size: f.size,
                    },
                };
                writes.push(Write::UpdateFile(g.duplicate()));
                files.push(g);
                proof {
                    assert(touched(self.files@, entry_id, single_b, k + 1) == t0.push(k as int));
                    assert(writes@ =~= touched(self.files@, entry_id, single_b, k + 1).map_values(|q: int| Write::UpdateFile(files@[q])));
                }
            } else {
                files.push(f.duplicate());
                proof {
                    assert(touched(self.files@, entry_id, single_b, k + 1) == t0);
                    assert(writes@ =~= touched(self.files@, entry_id, single_b, k + 1).map_values(|q: int| Write::UpdateFile(files@[q])));
                }
            }
            if f.entry_id == entry_id {
                seen = true;
            }
            k = k + 1;
        }
        if single.is_some() && !seen {
            proof {
                lemma_first_match_none(self.files@, p_of);
            }
            return Err(StoreError::NotFound);
        }
        let e = &self.entries[i];
        let n = Entry {
            id: e.id,
            location_id: e.location_id,
            name: name.to_owned(),
            path: path_s,
            size: e.size,
            grade: e.grade,
        };
        writes.push(Write::UpdateEntry(n.duplicate()));
        let ghost old_rows = self.entries@;
        let ghost old_files = self.files@;
        self.entries.set(i, n);
        self.files = files;
        self.writes.append(&mut writes);
        proof {
            lemma_same_ids_paths(old_rows, self.entries@);
            assert forall|a: int, b: int| 0 <= a < b < self.entries@.len() implies self.entries@[a].path@ != self.entries@[b].path@ by {
                if a == i as int || b == i as int {
                    let o = if a == i as int { b } else { a };
                    if self.entries@[o].path@ == path@ {
                        assert(entry_at(path@)(old_rows[o]));
                        lemma_first_match(old_rows, entry_at(path@));
                    }
                }
            }
            assert forall|a: int| 0 <= a < self.files@.len() implies {
                &&& #[trigger] self.files@[a].id < self.next_id
                &&& has_entry_id(self.entries@, self.files@[a].entry_id)
            } by {
                assert(old_files[a].id < self.next_id);
                assert(self.files@[a].entry_id == old_files[a].entry_id);
            }
            assert forall|a: int| 0 <= a < self.entries@.len() implies #[trigger] self.entries@[a].id < self.next_id by {
                assert(old_rows[a].id < self.next_id);
            }
            assert forall|a: int| 0 <= a < self.links@.len() implies {
                &&& has_entry_id(self.entries@, #[trigger] self.links@[a].entry_id)
                &&& has_label_id(self.labels@, self.links@[a].label_id)
            } by {
                assert(has_entry_id(old_rows, self.links@[a].entry_id));
            }
            assert(self.rows_wf());
        }
        self.reload();
        Ok(())
    }

    /// Renames entry `entry` to `new_entry_name` at `new_path`, as done on
    /// disk: the single file of a file entry takes the same name and path;
    /// the files of a directory entry move with it.
    pub fn rename_entry(
        &mut self,
        entry: Entry,
        new_entry_name: &str,
        new_path: &str,
        is_file_entry: bool,
    ) -> (r: Result<(), StoreError>)
        requires
            old(self).wf(),
        ensures
            final(self).wf(),
            ({
                let rows = old(self).entry_rows();
                let files = old(self).file_rows();
                let found = first_match(rows, entry_with_id(entry.id));
                let at = first_match(rows, entry_at(new_path@));
                let single = if is_file_entry {
                    Some((new_entry_name@, new_path@))
                } else {
                    None
                };
                &&& found is None ==> r == Err::<(), StoreError>(StoreError::NotFound)
                &&& found is Some && at is Some && at != found ==> r == Err::<(), StoreError>(StoreError::PathTaken)
                &&& found is Some && (at is None || at == found) && is_file_entry && first_match(files, file_of(entry.id)) is None
                    ==> r == Err::<(), StoreError>(StoreError::NotFound)
                &&& found is Some && (at is None || at == found) && (!is_file_entry || first_match(files, file_of(entry.id)) is Some)
                    ==> r is Ok
                &&& r is Err ==> *final(self) == *old(self)
                &&& r is Ok ==> {
                    &&& found is Some
                    &&& relocated(rows, files, final(self).entry_rows(), final(self).file_rows(), found.unwrap(), new_entry_name@, new_path@, single)
                    &&& final(self).journal() == old(self).journal() + touched(files, entry.id, is_file_entry, files.len() as int).map_values(
                        |k: int| Write::UpdateFile(final(self).file_rows()[k]),
                    ) + seq![Write::UpdateEntry(final(self).entry_rows()[found.unwrap()])]
                    &&& final(self).link_rows() == old(self).link_rows()
                    &&& final(self).label_rows() == old(self).label_rows()
                    &&& final(self).location_rows() == old(self).location_rows()
                    &&& final(self).filter_rows() == old(self).filter_rows()
                    &&& final(self).next_id() == old(self).next_id()
                    &&& final(self).url() == old(self).url()
                }
            }),
    {
        if is_file_entry {
            self.relocate(entry.id, new_entry_name, new_path, Some((new_entry_name, new_path)))
        } else {
            self.relocate(entry.id, new_entry_name, new_path, None)
        }
    }

    /// Records that the single file of file entry `entry` was moved into a
    /// new directory: the entry becomes that directory, named
    /// `new_entry_name` at `new_entry_path`, and its file row takes
    /// `new_file_name` and `new_file_path`.
    pub fn move_file_to_dir(
        &mut self,
        entry: &Entry,
        new_entry_name: &str,
        new_entry_path: &str,
        new_file_name: &str,
        new_file_path: &str,
    ) -> (r: Result<(), StoreError>)
        requires
            old(self).wf(),
        ensures
            final(self).wf(),
            ({
                let rows = old(self).entry_rows();
                let files = old(self).file_rows();
                let found = first_match(rows, entry_with_id(entry.id));
                let at = first_match(rows, entry_at(new_entry_path@));
                &&& found is None ==> r == Err::<(), StoreError>(StoreError::NotFound)
                &&& found is Some && at is Some && at != found ==> r == Err::<(), StoreError>(StoreError::PathTaken)
                &&& found is Some && (at is None || at == found) && first_match(files, file_of(entry.id)) is None
                    ==> r == Err::<(), StoreError>(StoreError::NotFound)
                &&& found is Some && (at is None || at == found) && first_match(files, file_of(entry.id)) is Some
                    ==> r is Ok
                &&& r is Err ==> *final(self) == *old(self)
                &&& r is Ok ==> {
                    &&& found is Some
                    &&& relocated(rows, files, final(self).entry_rows(), final(self).file_rows(), found.unwrap(), new_entry_name@, new_entry_path@, Some((new_file_name@, new_file_path@)))
                    &&& final(self).journal() == old(self).journal() + touched(files, entry.id, true, files.len() as int).map_values(
                        |k: int| Write::UpdateFile(final(self).file_rows()[k]),
                    ) + seq![Write::UpdateEntry(final(self).entry_rows()[found.unwrap()])]
                    &&& final(self).link_rows() == old(self).link_rows()
                    &&& final(self).label_rows() == old(self).label_rows()
                    &&& final(self).location_rows() == old(self).location_rows()
                    &&& final(self).filter_rows() == old(self).filter_rows()
                    &&& final(self).next_id() == old(self).next_id()
                    &&& final(self).url() == old(self).url()
                }
            }),
    {
        self.relocate(entry.id, new_entry_name, new_entry_path, Some((new_file_name, new_file_path)))
    }
}

/// Rows read back from the backend keep the catalog's keys: entry ids
/// are unique, entry paths and label names and ids are unique, associations are
/// unique, files and associations point at rows, and no id is the largest
/// one possible.
pub open spec fn rows_valid(
    locations: Seq<Location>,
    entries: Seq<Entry>,
    files: Seq<File>,
    labels: Seq<Label>,
    links: Seq<Entry2Label>,
    filters: Seq<LabelAutoFilter>,
) -> bool {
    &&& distinct_by(entries, |e: Entry| e.id)
    &&& paths_unique(entries)
    &&& label_names_unique(labels)
    &&& label_ids_unique(labels)
    &&& links_unique(links)
    &&& forall|i: int| 0 <= i < files.len() ==> has_entry_id(entries, #[trigger] files[i].entry_id)
    &&& forall|i: int| 0 <= i < links.len() ==> has_entry_id(entries, #[trigger] links[i].entry_id)
        && has_label_id(labels, links[i].label_id)
    &&& forall|i: int| 0 <= i < locations.len() ==> #[trigger] locations[i].id < i32::MAX
    &&& forall|i: int| 0 <= i < entries.len() ==> #[trigger] entries[i].id < i32::MAX
    &&& forall|i: int| 0 <= i < files.len() ==> #[trigger] files[i].id < i32::MAX
    &&& forall|i: int| 0 <= i < labels.len() ==> #[trigger] labels[i].id < i32::MAX
    &&& forall|i: int| 0 <= i < filters.len() ==> #[trigger] filters[i].id < i32::MAX
}


/// No two elements of `s` share a key.
pub open spec fn distinct_by<T, K>(s: Seq<T>, key: spec_fn(T) -> K) -> bool {
    forall|i: int, j: int| 0 <= i < j < s.len() ==> key(s[i]) != key(s[j])
}

/// An element that occurs twice has a second position.
proof fn lemma_second_position<T>(s: Seq<T>, x: T)
    requires
        s.to_multiset().count(x) >= 2,
    ensures
        exists|p: int, q: int| 0 <= p < q < s.len() && s[p] == x && s[q] == x,
{
    s.to_multiset_ensures();
    assert(s.contains(x));
    let p = choose|p: int| 0 <= p < s.len() && s[p] == x;
    let t = s.remove(p);
    s.remove_ensures(p);
    t.to_multiset_ensures();
    assert(t.to_multiset().count(x) > 0);
    assert(t.contains(x));
    let q0 = choose|q0: int| 0 <= q0 < t.len() && t[q0] == x;
    if q0 < p {
        assert(s[q0] == x);
    } else {
        assert(s[q0 + 1] == x);
    }
}

/// Rearranging a sequence keeps its keys distinct.
pub proof fn lemma_distinct_perm<T, K>(a: Seq<T>, b: Seq<T>, key: spec_fn(T) -> K)
    requires
        a.to_multiset() == b.to_multiset(),
        distinct_by(a, key),
    ensures
        distinct_by(b, key),
{
    a.to_multiset_ensures();
    b.to_multiset_ensures();
    assert forall|i: int, j: int| 0 <= i < j < b.len() implies key(b[i]) != key(b[j]) by {
        if key(b[i]) == key(b[j]) {
            assert(b.contains(b[i]) && b.contains(b[j]));
            assert(b.to_multiset().count(b[i]) > 0 && b.to_multiset().count(b[j]) > 0);
            if b[i] != b[j] {
                let p = choose|p: int| 0 <= p < a.len() && a[p] == b[i];
                let q = choose|q: int| 0 <= q < a.len() && a[q] == b[j];
                if p < q {
                    assert(key(a[p]) != key(a[q]));
                } else {
                    assert(key(a[q]) != key(a[p]));
                }
            } else {
                let x = b[i];
                let t = b.remove(j);
                b.remove_ensures(j);
                t.to_multiset_ensures();
                assert(t[i] == x);
                assert(t.contains(x));
                assert(t.to_multiset().count(x) > 0);
                assert(b.to_multiset().count(x) >= 2);
                lemma_second_position(a, x);
                let (p, q) = choose|p: int, q: int| 0 <= p < q < a.len() && a[p] == x && a[q] == x;
                assert(key(a[p]) != key(a[q]));
            }
        }
    }
}

/// Rearranging the entry rows keeps which ids they hold.
proof fn lemma_has_entry_id_perm(a: Seq<Entry>, b: Seq<Entry>, id: i32)
    requires
        a.to_multiset() == b.to_multiset(),
    ensures
        has_entry_id(a, id) == has_entry_id(b, id),
{
    a.to_multiset_ensures();
    b.to_multiset_ensures();
    if has_entry_id(a, id) {
        let w = choose|w: int| 0 <= w < a.len() && #[trigger] a[w].id == id;
        assert(a.contains(a[w]));
        assert(b.to_multiset().count(a[w]) > 0);
        let v = choose|v: int| 0 <= v < b.len() && b[v] == a[w];
        assert(b[v].id == id);
    }
    if has_entry_id(b, id) {
        let w = choose|w: int| 0 <= w < b.len() && #[trigger] b[w].id == id;
        assert(b.contains(b[w]));
        assert(a.to_multiset().count(b[w]) > 0);
        let v = choose|v: int| 0 <= v < a.len() && a[v] == b[w];
        assert(a[v].id == id);
    }
}

/// Rows read back keep the catalog's keys whatever the order of the entry
/// rows.
proof fn lemma_rows_valid_perm(
    locations: Seq<Location>,
    a: Seq<Entry>,
    b: Seq<Entry>,
    files: Seq<File>,
    labels: Seq<Label>,
    links: Seq<Entry2Label>,
    filters: Seq<LabelAutoFilter>,
)
    requires
        a.to_multiset() == b.to_multiset(),
        rows_valid(locations, a, files, labels, links, filters),
    ensures
        rows_valid(locations, b, files, labels, links, filters),
{
    a.to_multiset_ensures();
    b.to_multiset_ensures();
    lemma_distinct_perm(a, b, |e: Entry| e.id);
    let pk = |e: Entry| e.path@;
    assert(distinct_by(a, pk)) by {
        assert forall|i: int, j: int| 0 <= i < j < a.len() implies pk(a[i]) != pk(a[j]) by {
            assert(a[i].path@ != a[j].path@);
        }
    }
    lemma_distinct_perm(a, b, pk);
    assert forall|i: int, j: int| 0 <= i < j < b.len() implies b[i].path@ != b[j].path@ by {
        assert(pk(b[i]) != pk(b[j]));
    }
    assert forall|i: int| 0 <= i < files.len() implies has_entry_id(b, #[trigger] files[i].entry_id) by {
        lemma_has_entry_id_perm(a, b, files[i].entry_id);
    }
    assert forall|i: int| 0 <= i < links.len() implies has_entry_id(b, #[trigger] links[i].entry_id)
        && has_label_id(labels, links[i].label_id) by {
        lemma_has_entry_id_perm(a, b, links[i].entry_id);
    }
    assert forall|i: int| 0 <= i < b.len() implies #[trigger] b[i].id < i32::MAX by {
        assert(b.contains(b[i]));
        assert(a.to_multiset().count(b[i]) > 0);
        let v = choose|v: int| 0 <= v < a.len() && a[v] == b[i];
    }
}

/// Sorts entry rows by id, keeping every one of them.
fn sort_by_id(v: Vec<Entry>) -> (r: Vec<Entry>)
    ensures
        r@.to_multiset() == v@.to_multiset(),
        forall|i: int, j: int| 0 <= i < j < r@.len() ==> r@[i].id <= r@[j].id,
{
    broadcast use vstd::seq_lib::group_to_multiset_ensures;

    let ghost input = v@;
    let mut v = v;
    let mut out: Vec<Entry> = Vec::new();
    while v.len() > 0
        invariant
            out@.to_multiset().add(v@.to_multiset()) == input.to_multiset(),
            forall|i: int, j: int| 0 <= i < j < out@.len() ==> out@[i].id <= out@[j].id,
        decreases v@.len(),
    {
        let ghost v_before = v@;
        let x = v.pop().unwrap();
        assert(v_before =~= v@.push(x));
        proof {
            v@.to_multiset_ensures();
        }
        let mut lo: usize = 0;
        let mut hi: usize = out.len();
        while lo < hi
            invariant
                lo <= hi <= out@.len(),
                forall|i: int, j: int| 0 <= i < j < out@.len() ==> out@[i].id <= out@[j].id,
                forall|q: int| 0 <= q < lo ==> (#[trigger] out@[q]).id <= x.id,
                forall|q: int| hi <= q < out@.len() ==> (#[trigger] out@[q]).id > x.id,
            decreases hi - lo,
        {
            let mid = lo + (hi - lo) / 2;
            if out[mid].id <= x.id {
                lo = mid + 1;
            } else {
                hi = mid;
            }
        }
        let ghost before = out@;
        out.insert(lo, x);
        proof {
            crate::order::lemma_insert_multiset(before, lo as int, x);
            before.insert_ensures(lo as int, x);
            assert forall|i: int, j: int| 0 <= i < j < out@.len() implies out@[i].id <= out@[j].id by {
                if i < lo && j > lo {
                    assert(out@[j] == before[j - 1]);
                } else if i > lo {
                    assert(out@[i] == before[i - 1] && out@[j] == before[j - 1]);
                } else if i == lo {
                    assert(out@[j] == before[j - 1]);
                }
            }
        }
    }
    assert(v@ =~= Seq::<Entry>::empty());
    out
}

/// `n` is one above every id of the rows, or 1 where there are none.
pub open spec fn next_id_after(
    locations: Seq<Location>,
    entries: Seq<Entry>,
    files: Seq<File>,
    labels: Seq<Label>,
    filters: Seq<LabelAutoFilter>,
    n: i32,
) -> bool {
    &&& forall|i: int| 0 <= i < locations.len() ==> #[trigger] locations[i].id < n
    &&& forall|i: int| 0 <= i < entries.len() ==> #[trigger] entries[i].id < n
    &&& forall|i: int| 0 <= i < files.len() ==> #[trigger] files[i].id < n
    &&& forall|i: int| 0 <= i < labels.len() ==> #[trigger] labels[i].id < n
    &&& forall|i: int| 0 <= i < filters.len() ==> #[trigger] filters[i].id < n
    &&& (n == 1 || (exists|i: int| 0 <= i < locations.len() && locations[i].id == n - 1)
        || (exists|i: int| 0 <= i < entries.len() && entries[i].id == n - 1)
        || (exists|i: int| 0 <= i < files.len() && files[i].id == n - 1)
        || (exists|i: int| 0 <= i < labels.len() && labels[i].id == n - 1)
        || (exists|i: int| 0 <= i < filters.len() && filters[i].id == n - 1))
}

/// One more than the largest of `ids`, and at least `floor`.
fn next_above(ids: &Vec<i32>, floor: i32) -> (r: i32)
    requires
        forall|i: int| 0 <= i < ids@.len() ==> #[trigger] ids@[i] < i32::MAX,
    ensures
        r >= floor,
        forall|i: int| 0 <= i < ids@.len() ==> #[trigger] ids@[i] < r,
        r == floor || exists|i: int| 0 <= i < ids@.len() && r == ids@[i] + 1,
{
    let mut r = floor;
    let mut i: usize = 0;
    while i < ids.len()
        invariant
            i <= ids@.len(),
            forall|i: int| 0 <= i < ids@.len() ==> #[trigger] ids@[i] < i32::MAX,
            r >= floor,
            forall|j: int| 0 <= j < i ==> #[trigger] ids@[j] < r,
            r == floor || exists|j: int| 0 <= j < ids@.len() && r == ids@[j] + 1,
        decreases ids@.len() - i,
    {
        if ids[i] >= r {
            r = ids[i] + 1;
        }
        i = i + 1;
    }
    r
}

impl Store {
    /// Replaces the rows with those read back from the backend, the entry
    /// rows sorted by id, and rebuilds every read index from them; fails,
    /// changing nothing, where they break a key of the catalog. The next id
    /// is one above every id read, or 1 where there is none.
    pub fn load_from_store(
        &mut self,
        locations: Vec<Location>,
        entries: Vec<Entry>,
        files: Vec<File>,
        labels: Vec<Label>,
        links: Vec<Entry2Label>,
        filters: Vec<LabelAutoFilter>,
    ) -> (r: Result<(), StoreError>)
        requires
            old(self).wf(),
        ensures
            final(self).wf(),
            r is Ok <==> rows_valid(locations@, entries@, files@, labels@, links@, filters@),
            r is Err ==> r == Err::<(), StoreError>(StoreError::Inconsistent) && *final(self) == *old(self),
            r is Ok ==> {
                &&& final(self).location_rows() == locations@
                &&& final(self).entry_rows().to_multiset() == entries@.to_multiset()
                &&& ids_ascending(final(self).entry_rows())
                &&& final(self).file_rows() == files@
                &&& final(self).label_rows() == labels@
                &&& final(self).link_rows() == links@
                &&& final(self).filter_rows() == filters@
                &&& final(self).journal() == old(self).journal()
                &&& final(self).url() == old(self).url()
                &&& next_id_after(locations@, final(self).entry_rows(), files@, labels@, filters@, final(self).next_id())
            },
    {
        let ghost given = entries@;
        let entries = sort_by_id(entries);
        proof {
            if rows_valid(locations@, given, files@, labels@, links@, filters@) {
                lemma_rows_valid_perm(locations@, given, entries@, files@, labels@, links@, filters@);
            }
            if rows_valid(locations@, entries@, files@, labels@, links@, filters@) {
                lemma_rows_valid_perm(locations@, entries@, given, files@, labels@, links@, filters@);
            }
        }
        if !self.rows_ok(&locations, &entries, &files, &labels, &links, &filters) {
            return Err(StoreError::Inconsistent);
        }
        proof {
            assert forall|a: int, b: int| 0 <= a < b < entries@.len() implies entries@[a].id < entries@[b].id by {
                assert((|e: Entry| e.id)(entries@[a]) != (|e: Entry| e.id)(entries@[b]));
            }
        }
        let mut ids: Vec<i32> = Vec::new();
        let mut i: usize = 0;
        while i < locations.len()
            invariant
                i <= locations@.len(),
                ids@ == locations@.take(i as int).map_values(|l: Location| l.id),
            decreases locations@.len() - i,
        {
            ids.push(locations[i].id);
            assert(ids@ =~= locations@.take(i + 1).map_values(|l: Location| l.id));
            i = i + 1;
        }
        assert(locations@.take(locations@.len() as int) =~= locations@);
        let next = next_above(&ids, 1);
        proof {
            assert forall|a: int| 0 <= a < locations@.len() implies #[trigger] locations@[a].id < next by {
                assert(ids@[a] == locations@[a].id);
            }
            if next != 1 {
                let w = choose|w: int| 0 <= w < ids@.len() && next == ids@[w] + 1;
                assert(ids@[w] == locations@[w].id);
            }
            assert(next == 1 || exists|w: int| 0 <= w < locations@.len() && locations@[w].id == next - 1);
        }
        let mut ids: Vec<i32> = Vec::new();
        let mut i: usize = 0;
        while i < entries.len()
            invariant
                i <= entries@.len(),
                ids@ == entries@.take(i as int).map_values(|l: Entry| l.id),
            decreases entries@.len() - i,
        {
            ids.push(entries[i].id);
            assert(ids@ =~= entries@.take(i + 1).map_values(|l: Entry| l.id));
            i = i + 1;
        }
        assert(entries@.take(entries@.len() as int) =~= entries@);
        let next2 = next_above(&ids, next);
        proof {
            assert forall|a: int| 0 <= a < entries@.len() implies #[trigger] entries@[a].id < next2 by {
                assert(ids@[a] == entries@[a].id);
            }
            if next2 != next {
                let w = choose|w: int| 0 <= w < ids@.len() && next2 == ids@[w] + 1;
                assert(ids@[w] == entries@[w].id);
            }
            assert(next2 == next || exists|w: int| 0 <= w < entries@.len() && entries@[w].id == next2 - 1);
        }
        let mut ids: Vec<i32> = Vec::new();
        let mut i: usize = 0;
        while i < files.len()
            invariant
                i <= files@.len(),
                ids@ == files@.take(i as int).map_values(|l: File| l.id),
            decreases files@.len() - i,
        {
            ids.push(files[i].id);
            assert(ids@ =~= files@.take(i + 1).map_values(|l: File| l.id));
            i = i + 1;
        }
        assert(files@.take(files@.len() as int) =~= files@);
        let next3 = next_above(&ids, next2);
        proof {
            assert forall|a: int| 0 <= a < files@.len() implies #[trigger] files@[a].id < next3 by {
                assert(ids@[a] == files@[a].id);
            }
            if next3 != next2 {
                let w = choose|w: int| 0 <= w < ids@.len() && next3 == ids@[w] + 1;
                assert(ids@[w] == files@[w].id);
            }
            assert(next3 == next2 || exists|w: int| 0 <= w < files@.len() && files@[w].id == next3 - 1);
        }
        let mut ids: Vec<i32> = Vec::new();
        let mut i: usize = 0;
        while i < labels.len()
            invariant
                i <= labels@.len(),
                ids@ == labels@.take(i as int).map_values(|l: Label| l.id),
            decreases labels@.len() - i,
        {
            ids.push(labels[i].id);
            assert(ids@ =~= labels@.take(i + 1).map_values(|l: Label| l.id));
            i = i + 1;
        }
        assert(labels@.take(labels@.len() as int) =~= labels@);
        let next4 = next_above(&ids, next3);
        proof {
            assert forall|a: int| 0 <= a < labels@.len() implies #[trigger] labels@[a].id < next4 by {
                assert(ids@[a] == labels@[a].id);
            }
            if next4 != next3 {
                let w = choose|w: int| 0 <= w < ids@.len() && next4 == ids@[w] + 1;
                assert(ids@[w] == labels@[w].id);
            }
            assert(next4 == next3 || exists|w: int| 0 <= w < labels@.len() && labels@[w].id == next4 - 1);
        }
        let mut ids: Vec<i32> = Vec::new();
        let mut i: usize = 0;
        while i < filters.len()
            invariant
                i <= filters@.len(),
                ids@ == filters@.take(i as int).map_values(|l: LabelAutoFilter| l.id),
            decreases filters@.len() - i,
        {
            ids.push(filters[i].id);
            assert(ids@ =~= filters@.take(i + 1).map_values(|l: LabelAutoFilter| l.id));
            i = i + 1;
        }
        assert(filters@.take(filters@.len() as int) =~= filters@);
        let next5 = next_above(&ids, next4);
        proof {
            assert forall|a: int| 0 <= a < filters@.len() implies #[trigger] filters@[a].id < next5 by {
                assert(ids@[a] == filters@[a].id);
            }
            if next5 != next4 {
                let w = choose|w: int| 0 <= w < ids@.len() && next5 == ids@[w] + 1;
                assert(ids@[w] == filters@[w].id);
            }
            assert(next5 == next4 || exists|w: int| 0 <= w < filters@.len() && filters@[w].id == next5 - 1);
        }
        self.locations = locations;
        self.entries = entries;
        self.files = files;
        self.labels = labels;
        self.links = links;
        self.label_filters = filters;
        self.next_id = next5;
        proof {
            assert forall|a: int| 0 <= a < self.files@.len() implies {
                &&& #[trigger] self.files@[a].id < self.next_id
                &&& has_entry_id(self.entries@, self.files@[a].entry_id)
            } by {}
            assert(self.rows_wf());
            assert(next_id_after(self.locations@, self.entries@, self.files@, self.labels@, self.label_filters@, next5));
        }
        self.reload();
        Ok(())
    }

    /// Whether rows read back from the backend keep the catalog's keys.
    fn rows_ok(
        &self,
        locations: &Vec<Location>,
        entries: &Vec<Entry>,
        files: &Vec<File>,
        labels: &Vec<Label>,
        links: &Vec<Entry2Label>,
        filters: &Vec<LabelAutoFilter>,
    ) -> (r: bool)
        requires
            forall|i: int, j: int| 0 <= i < j < entries@.len() ==> entries@[i].id <= entries@[j].id,
        ensures
            r == rows_valid(locations@, entries@, files@, labels@, links@, filters@),
    {
        let ghost want = rows_valid(locations@, entries@, files@, labels@, links@, filters@);
        // Entry ids, already in order, strictly ascend and stay below the
        // largest id.
        let mut i: usize = 0;
        while i < entries.len()
            invariant
                i <= entries@.len(),
                forall|i: int, j: int| 0 <= i < j < entries@.len() ==> entries@[i].id <= entries@[j].id,
                forall|a: int, b: int| 0 <= a < b < i ==> entries@[a].id < entries@[b].id,
                forall|a: int| 0 <= a < i ==> #[trigger] entries@[a].id < i32::MAX,
            decreases entries@.len() - i,
        {
            if entries[i].id == i32::MAX {
                return false;
            }
            if i > 0 && entries[i - 1].id >= entries[i].id {
                assert((|e: Entry| e.id)(entries@[i - 1]) == (|e: Entry| e.id)(entries@[i as int]));
                return false;
            }
            i = i + 1;
        }
        // Entry paths are unique.
        let mut i: usize = 0;
        while i < entries.len()
            invariant
                i <= entries@.len(),
                forall|a: int, b: int| 0 <= a < b < entries@.len() && a < i ==> entries@[a].path@ != entries@[b].path@,
            decreases entries@.len() - i,
        {
            let mut j: usize = i + 1;
            while j < entries.len()
                invariant
                    i < j <= entries@.len(),
                    forall|a: int, b: int| 0 <= a < b < entries@.len() && a < i ==> entries@[a].path@ != entries@[b].path@,
                    forall|b: int| i < b < j ==> entries@[i as int].path@ != #[trigger] entries@[b].path@,
                decreases entries@.len() - j,
            {
                if entries[i].path == entries[j].path {
                    return false;
                }
                j = j + 1;
            }
            i = i + 1;
        }
        // Label ids and names are unique and below the largest id.
        let mut i: usize = 0;
        while i < labels.len()
            invariant
                i <= labels@.len(),
                forall|a: int, b: int| 0 <= a < b < labels@.len() && a < i ==> labels@[a].id != labels@[b].id
                    && labels@[a].name@ != labels@[b].name@,
                forall|a: int| 0 <= a < i ==> #[trigger] labels@[a].id < i32::MAX,
            decreases labels@.len() - i,
        {
            if labels[i].id == i32::MAX {
                return false;
            }
            let mut j: usize = i + 1;
            while j < labels.len()
                invariant
                    i < j <= labels@.len(),
                    forall|a: int, b: int| 0 <= a < b < labels@.len() && a < i ==> labels@[a].id != labels@[b].id
                        && labels@[a].name@ != labels@[b].name@,
                    forall|b: int| i < b < j ==> labels@[i as int].id != #[trigger] labels@[b].id,
                    forall|b: int| i < b < j ==> labels@[i as int].name@ != (#[trigger] labels@[b]).name@,
                decreases labels@.len() - j,
            {
                if labels[i].id == labels[j].id {
                    return false;
                }
                if labels[i].name == labels[j].name {
                    return false;
                }
                assert(labels@[i as int].name@ != labels@[j as int].name@);
                j = j + 1;
            }
            i = i + 1;
        }
        // Associations are unique and point at rows.
        let mut i: usize = 0;
        while i < links.len()
            invariant
                i <= links@.len(),
                ids_ascending(entries@),
                forall|a: int, b: int| 0 <= a < b < links@.len() && a < i ==> links@[a] != links@[b],
                forall|a: int| 0 <= a < i ==> has_entry_id(entries@, #[trigger] links@[a].entry_id)
                    && has_label_id(labels@, links@[a].label_id),
            decreases links@.len() - i,
        {
            if index_of_id(entries, links[i].entry_id).is_none() || !has_label_row(labels, links[i].label_id) {
                return false;
            }
            let mut j: usize = i + 1;
            while j < links.len()
                invariant
                    i < j <= links@.len(),
                    forall|a: int, b: int| 0 <= a < b < links@.len() && a < i ==> links@[a] != links@[b],
                    forall|b: int| i < b < j ==> links@[i as int] != #[trigger] links@[b],
                decreases links@.len() - j,
            {
                if links[i] == links[j] {
                    return false;
                }
                j = j + 1;
            }
            i = i + 1;
        }
        // Files point at entries; no id is the largest one possible.
        let mut i: usize = 0;
        while i < files.len()
            invariant
                i <= files@.len(),
                ids_ascending(entries@),
                forall|a: int| 0 <= a < i ==> has_entry_id(entries@, #[trigger] files@[a].entry_id),
                forall|a: int| 0 <= a < i ==> #[trigger] files@[a].id < i32::MAX,
            decreases files@.len() - i,
        {
            if files[i].id == i32::MAX || index_of_id(entries, files[i].entry_id).is_none() {
                return false;
            }
            i = i + 1;
        }
        let mut i: usize = 0;
        while i < locations.len()
            invariant
                i <= locations@.len(),
                forall|a: int| 0 <= a < i ==> #[trigger] locations@[a].id < i32::MAX,
            decreases locations@.len() - i,
        {
            if locations[i].id == i32::MAX {
                return false;
            }
            i = i + 1;
        }
        let mut i: usize = 0;
        while i < filters.len()
            invariant
                i <= filters@.len(),
                forall|a: int| 0 <= a < i ==> #[trigger] filters@[a].id < i32::MAX,
            decreases filters@.len() - i,
        {
            if filters[i].id == i32::MAX {
                return false;
            }
            i = i + 1;
        }
        true
    }
}

/// Groups the file rows by entry, with an empty group for each entry that
/// has none.
fn build_files_cache(entries: &Vec<Entry>, files: &Vec<File>) -> (m: HashMap<i32, Vec<File>>)
    ensures
        forall|id: i32| #[trigger] m@.contains_key(id) <==> has_entry_id(entries@, id),
        forall|id: i32| #[trigger] m@.contains_key(id) ==> m@[id]@ == files_of(files@, id),
{
    let mut m: HashMap<i32, Vec<File>> = HashMap::new();
    let mut i: usize = 0;
    while i < entries.len()
        invariant
            i <= entries@.len(),
            forall|id: i32| #[trigger] m@.contains_key(id) <==> has_entry_id(entries@.take(i as int), id),
            forall|id: i32| #[trigger] m@.contains_key(id) ==> m@[id]@ == Seq::<File>::empty(),
        decreases entries@.len() - i,
    {
        m.insert(entries[i].id, Vec::new());
        proof {
            assert forall|id: i32| #[trigger] m@.contains_key(id) <==> has_entry_id(entries@.take(i + 1), id) by {
                if has_entry_id(entries@.take(i + 1), id) {
                    let j = choose|j: int| 0 <= j < i + 1 && #[trigger] entries@.take(i + 1)[j].id == id;
                    if j < i {
                        assert(entries@.take(i as int)[j].id == id);
                    }
                }
                if has_entry_id(entries@.take(i as int), id) {
                    let j = choose|j: int| 0 <= j < i && #[trigger] entries@.take(i as int)[j].id == id;
                    assert(entries@.take(i + 1)[j].id == id);
                }
                if id == entries@[i as int].id {
                    assert(entries@.take(i + 1)[i as int].id == id);
                }
            }
        }
        i = i + 1;
    }
    assert(entries@.take(entries@.len() as int) =~= entries@);
    let mut k: usize = 0;
    while k < files.len()
        invariant
            k <= files@.len(),
            forall|id: i32| #[trigger] m@.contains_key(id) <==> has_entry_id(entries@, id),
            forall|id: i32| #[trigger] m@.contains_key(id) ==> m@[id]@ == files_of(files@.take(k as int), id),
        decreases files@.len() - k,
    {
        let f = &files[k];
        let ghost old_m = m@;
        assert(files@.take(k + 1) =~= files@.take(k as int).push(*f));
        match m.remove(&f.entry_id) {
            Some(mut group) => {
                group.push(f.duplicate());
                m.insert(f.entry_id, group);
            },
            None => {},
        }
        proof {
            broadcast use Seq::lemma_filter_push;

            assert forall|id: i32| #[trigger] m@.contains_key(id) implies m@[id]@ == files_of(files@.take(k + 1), id) by {
                if id != f.entry_id {
                    assert(old_m.contains_key(id));
                }
            }
        }
        k = k + 1;
    }
    assert(files@.take(files@.len() as int) =~= files@);
    m
}

/// Indexes the associations both ways: entry to labels and label to entries.
fn build_label_lookups(links: &Vec<Entry2Label>) -> (r: (HashMap<i32, HashSet<i32>>, HashMap<i32, HashSet<i32>>))
    ensures
        forall|id: i32| #[trigger] r.0@.contains_key(id) <==> !labels_of(links@, id).is_empty(),
        forall|id: i32| #[trigger] r.0@.contains_key(id) ==> r.0@[id]@ == labels_of(links@, id),
        forall|id: i32| #[trigger] r.1@.contains_key(id) <==> !entries_of(links@, id).is_empty(),
        forall|id: i32| #[trigger] r.1@.contains_key(id) ==> r.1@[id]@ == entries_of(links@, id),
{
    let mut by_entry: HashMap<i32, HashSet<i32>> = HashMap::new();
    let mut by_label: HashMap<i32, HashSet<i32>> = HashMap::new();
    let mut k: usize = 0;
    while k < links.len()
        invariant
            k <= links@.len(),
            forall|id: i32| #[trigger] by_entry@.contains_key(id) <==> !labels_of(links@.take(k as int), id).is_empty(),
            forall|id: i32| #[trigger] by_entry@.contains_key(id) ==> by_entry@[id]@ == labels_of(links@.take(k as int), id),
            forall|id: i32| #[trigger] by_label@.contains_key(id) <==> !entries_of(links@.take(k as int), id).is_empty(),
            forall|id: i32| #[trigger] by_label@.contains_key(id) ==> by_label@[id]@ == entries_of(links@.take(k as int), id),
        decreases links@.len() - k,
    {
        let link = links[k];
        let ghost pre = links@.take(k as int);
        let ghost post = links@.take(k + 1);
        assert(post =~= pre.push(link));
        let ghost old_e = by_entry@;
        let ghost old_l = by_label@;
        let mut set_e = match by_entry.remove(&link.entry_id) {
            Some(s) => s,
            None => HashSet::new(),
        };
        set_e.insert(link.label_id);
        by_entry.insert(link.entry_id, set_e);
        let mut set_l = match by_label.remove(&link.label_id) {
            Some(s) => s,
            None => HashSet::new(),
        };
        set_l.insert(link.entry_id);
        by_label.insert(link.label_id, set_l);
        proof {
            assert forall|id: i32| labels_of(post, id) =~= if id == link.entry_id {
                labels_of(pre, id).insert(link.label_id)
            } else {
                labels_of(pre, id)
            } by {
                assert forall|l: i32| post.contains(Entry2Label { entry_id: id, label_id: l }) <==> pre.contains(Entry2Label { entry_id: id, label_id: l }) || link == (Entry2Label { entry_id: id, label_id: l }) by {
                    if post.contains(Entry2Label { entry_id: id, label_id: l }) {
                        let j = choose|j: int| 0 <= j < post.len() && post[j] == Entry2Label { entry_id: id, label_id: l };
                        if j < pre.len() {
                            assert(pre[j] == post[j]);
                        }
                    }
                    if pre.contains(Entry2Label { entry_id: id, label_id: l }) {
                        let j = choose|j: int| 0 <= j < pre.len() && pre[j] == Entry2Label { entry_id: id, label_id: l };
                        assert(post[j] == pre[j]);
                    }
                    if link == (Entry2Label { entry_id: id, label_id: l }) {
                        assert(post[pre.len() as int] == link);
                    }
                }
            }
            assert forall|id: i32| entries_of(post, id) =~= if id == link.label_id {
                entries_of(pre, id).insert(link.entry_id)
            } else {
                entries_of(pre, id)
            } by {
                assert forall|e: i32| post.contains(Entry2Label { entry_id: e, label_id: id }) <==> pre.contains(Entry2Label { entry_id: e, label_id: id }) || link == (Entry2Label { entry_id: e, label_id: id }) by {
                    if post.contains(Entry2Label { entry_id: e, label_id: id }) {
                        let j = choose|j: int| 0 <= j < post.len() && post[j] == Entry2Label { entry_id: e, label_id: id };
                        if j < pre.len() {
                            assert(pre[j] == post[j]);
                        }
                    }
                    if pre.contains(Entry2Label { entry_id: e, label_id: id }) {
                        let j = choose|j: int| 0 <= j < pre.len() && pre[j] == Entry2Label { entry_id: e, label_id: id };
                        assert(post[j] == pre[j]);
                    }
                    if link == (Entry2Label { entry_id: e, label_id: id }) {
                        assert(post[pre.len() as int] == link);
                    }
                }
            }
            assert forall|id: i32| #[trigger] by_entry@.contains_key(id) <==> !labels_of(post, id).is_empty() by {
                if id == link.entry_id {
                    assert(labels_of(post, id).contains(link.label_id));
                }
            }
            assert forall|id: i32| #[trigger] by_label@.contains_key(id) <==> !entries_of(post, id).is_empty() by {
                if id == link.label_id {
                    assert(entries_of(post, id).contains(link.entry_id));
                }
            }
            assert forall|id: i32| #[trigger] by_entry@.contains_key(id) implies by_entry@[id]@ == labels_of(post, id) by {
                if id != link.entry_id {
                    assert(old_e.contains_key(id));
                } else if !old_e.contains_key(id) {
                    assert(labels_of(pre, id) =~= Set::empty());
                }
            }
            assert forall|id: i32| #[trigger] by_label@.contains_key(id) implies by_label@[id]@ == entries_of(post, id) by {
                if id != link.label_id {
                    assert(old_l.contains_key(id));
                } else if !old_l.contains_key(id) {
                    assert(entries_of(pre, id) =~= Set::empty());
                }
            }
        }
        k = k + 1;
    }
    assert(links@.take(links@.len() as int) =~= links@);
    (by_entry, by_label)
}

} // verus!
