//! The scanner's logic: grouping the items of a walk under one root into
//! top-level aggregates, and merging the results of all roots.
use vstd::prelude::*;

use crate::models::{files_size, DirEntry, FileEntry};
use crate::order::lemma_insert_multiset;
use vstd::multiset::Multiset;
use vstd::seq_lib::lemma_multiset_commutative;
use crate::text::{bytes_le, lemma_bytes_le_total, lemma_bytes_le_trans, str_le, text_key};

verus! {

/// One item that a walk of a root yields, in walk order: its depth below
/// the root (the root itself is 0), its kind, name, path and length.
#[derive(Clone, Debug)]
pub struct WalkItem {
    pub depth: usize,
    pub is_file: bool,
    pub is_dir: bool,
    pub name: String,
    pub path: String,
    pub len: u64,
}

/// An aggregate in the making: name, path, files and size.
pub type Agg = (String, String, Seq<FileEntry>, int);

/// The aggregates finished so far and the directory aggregate still open.
pub type WalkState = (Seq<Agg>, Option<Agg>);

/// One step of the grouping: a file at depth one is an aggregate of its
/// own; a deeper file joins the open directory; a directory at depth one
/// closes the open one and opens itself.
pub open spec fn walk_step(st: WalkState, it: WalkItem) -> WalkState {
    let file = FileEntry { name: it.name, path: it.path, size: it.len };
    if it.is_file && it.depth == 1 {
        (st.0.push((it.name, it.path, seq![file], it.len as int)), st.1)
    } else if it.is_file && it.depth > 1 {
        match st.1 {
            Some(c) => (st.0, Some((c.0, c.1, c.2.push(file), c.3 + it.len))),
            None => st,
        }
    } else if it.is_dir && it.depth == 1 {
        let done = match st.1 {
            Some(c) => st.0.push(c),
            None => st.0,
        };
        (done, Some((it.name, it.path, Seq::empty(), 0)))
    } else {
        st
    }
}

pub open spec fn walk_state(items: Seq<WalkItem>, n: int) -> WalkState
    decreases n,
{
    if n <= 0 {
        (Seq::empty(), None)
    } else {
        walk_step(walk_state(items, n - 1), items[n - 1])
    }
}

/// The aggregates of a whole walk, in the order they are closed.
pub open spec fn grouped(items: Seq<WalkItem>) -> Seq<Agg> {
    let st = walk_state(items, items.len() as int);
    match st.1 {
        Some(c) => st.0.push(c),
        None => st.0,
    }
}

/// The total length of the files of a walk.
pub open spec fn walk_bytes(items: Seq<WalkItem>) -> int
    decreases items.len(),
{
    if items.len() == 0 {
        0
    } else {
        walk_bytes(items.drop_last()) + if items.last().is_file { items.last().len as int } else { 0 }
    }
}

/// `d` is aggregate `a` of location `location_id`.
pub open spec fn is_agg(d: DirEntry, a: Agg, location_id: i32) -> bool {
    &&& d.name == a.0
    &&& d.path == a.1
    &&& d.files@ == a.2
    &&& d.size as int == a.3
    &&& d.location_id == location_id
}

proof fn lemma_walk_sizes(items: Seq<WalkItem>, n: int)
    requires
        0 <= n <= items.len(),
    ensures
        ({
            let st = walk_state(items, n);
            st.1 matches Some(c) ==> 0 <= c.3 <= walk_bytes(items.take(n))
        }),
    decreases n,
{
    if n > 0 {
        lemma_walk_sizes(items, n - 1);
        assert(items.take(n).drop_last() =~= items.take(n - 1));
        lemma_walk_bytes_nonneg(items.take(n - 1));
    }
}

proof fn lemma_walk_bytes_nonneg(items: Seq<WalkItem>)
    ensures
        walk_bytes(items) >= 0,
    decreases items.len(),
{
    if items.len() > 0 {
        lemma_walk_bytes_nonneg(items.drop_last());
    }
}

proof fn lemma_walk_bytes_prefix(items: Seq<WalkItem>, n: int)
    requires
        0 <= n <= items.len(),
    ensures
        walk_bytes(items.take(n)) <= walk_bytes(items),
    decreases items.len() - n,
{
    if n < items.len() {
        lemma_walk_bytes_prefix(items, n + 1);
        assert(items.take(n + 1).drop_last() =~= items.take(n));
    } else {
        assert(items.take(n) =~= items);
    }
}

/// Groups the items of a walk of one root into aggregates: each file
/// directly under the root, and each directory directly under it with every
/// file below it.
pub fn list_files_in_dir(location_id: i32, items: &Vec<WalkItem>) -> (r: Vec<DirEntry>)
    requires
        walk_bytes(items@) <= u64::MAX,
    ensures
        r@.len() == grouped(items@).len(),
        forall|i: int| 0 <= i < r@.len() ==> is_agg(#[trigger] r@[i], grouped(items@)[i], location_id),
{
    let mut out: Vec<DirEntry> = Vec::new();
    let mut current: Option<DirEntry> = None;
    let mut k: usize = 0;
    while k < items.len()
        invariant
            k <= items@.len(),
            walk_bytes(items@) <= u64::MAX,
            ({
                let st = walk_state(items@, k as int);
                &&& out@.len() == st.0.len()
                &&& forall|i: int| 0 <= i < out@.len() ==> is_agg(#[trigger] out@[i], st.0[i], location_id)
                &&& match current {
                    Some(d) => st.1 matches Some(c) && is_agg(d, c, location_id),
                    None => st.1 is None,
                }
            }),
        decreases items@.len() - k,
    {
        let it = &items[k];
        proof {
            lemma_walk_sizes(items@, k + 1);
            lemma_walk_bytes_prefix(items@, k + 1);
        }
        let ghost st0 = walk_state(items@, k as int);
        if it.is_file && it.depth == 1 {
            let f = FileEntry { name: it.name.clone(), path: it.path.clone(), size: it.len };
            out.push(DirEntry {
                name: it.name.clone(),
                location_id,
                path: it.path.clone(),
                files: vec![f],
                size: it.len,
            });
            proof {
                assert(out@.last().files@ =~= seq![FileEntry { name: it.name, path: it.path, size: it.len }]);
            }
        } else if it.is_file && it.depth > 1 {
            match current {
                Some(mut d) => {
                    let f = FileEntry { name: it.name.clone(), path: it.path.clone(), size: it.len };
                    d.size = d.size + it.len;
                    d.files.push(f);
                    current = Some(d);
                },
                None => {
                    current = None;
                },
            }
        } else if it.is_dir && it.depth == 1 {
            match current {
                Some(d) => {
                    out.push(d);
                },
                None => {},
            }
            current = Some(DirEntry {
                name: it.name.clone(),
                location_id,
                path: it.path.clone(),
                files: Vec::new(),
                size: 0,
            });
        }
        k = k + 1;
    }
    match current {
        Some(d) => {
            out.push(d);
        },
        None => {},
    }
    out
}

/// Whether `a` comes no later than `b` by name.
pub open spec fn name_le(a: (i32, DirEntry), b: (i32, DirEntry)) -> bool {
    bytes_le(text_key(a.1.name@), text_key(b.1.name@))
}

/// The results of all roots, each aggregate with its location, in one list
/// sorted by name across locations.
pub fn merge_results(parts: Vec<(i32, Vec<DirEntry>)>) -> (r: Vec<(i32, DirEntry)>)
    ensures
        r@.to_multiset() == tagged_all(parts@, parts@.len() as int).to_multiset(),
        forall|i: int, j: int| 0 <= i < j < r@.len() ==> name_le(r@[i], r@[j]),
{
    broadcast use vstd::seq_lib::group_to_multiset_ensures;

    let ghost total = tagged_all(parts@, parts@.len() as int).to_multiset();
    let mut parts = parts;
    let mut src: Vec<(i32, DirEntry)> = Vec::new();
    proof {
        src@.to_multiset_ensures();
        assert(src@.to_multiset() =~= Multiset::empty());
    }
    assert(src@.to_multiset().add(tagged_all(parts@, parts@.len() as int).to_multiset()) =~= total);
    while parts.len() > 0
        invariant
            src@.to_multiset().add(tagged_all(parts@, parts@.len() as int).to_multiset()) == total,
        decreases parts@.len(),
    {
        let ghost before = parts@;
        let ghost src0 = src@;
        let (loc, mut dirs) = parts.pop().unwrap();
        proof {
            lemma_tagged_all_prefix(before, parts@, parts@.len() as int);
            let a = tagged_all(parts@, parts@.len() as int);
            let b = tagged((loc, dirs));
            assert(tagged_all(before, before.len() as int) == a + b);
            lemma_multiset_commutative(a, b);
            assert(src0.to_multiset().add(a.to_multiset()).add(b.to_multiset()) =~= total);
        }
        while dirs.len() > 0
            invariant
                src@.to_multiset().add(tagged_all(parts@, parts@.len() as int).to_multiset()).add(
                    tagged((loc, dirs)).to_multiset(),
                ) == total,
            decreases dirs@.len(),
        {
            let ghost dirs_before = dirs@;
            let ghost src1 = src@;
            let d = dirs.pop().unwrap();
            proof {
                let t0 = tagged((loc, dirs));
                assert(dirs_before.map_values(|d: DirEntry| (loc, d)) =~= t0.push((loc, d)));
                t0.to_multiset_ensures();
                src1.to_multiset_ensures();
            }
            src.push((loc, d));
            proof {
                let a = tagged_all(parts@, parts@.len() as int).to_multiset();
                let t0 = tagged((loc, dirs)).to_multiset();
                assert(src@.to_multiset() == src1.to_multiset().insert((loc, d)));
                assert(src@.to_multiset().add(a).add(t0) =~= src1.to_multiset().add(a).add(t0.insert((loc, d))));
            }
        }
        proof {
            assert(tagged((loc, dirs)) =~= Seq::<(i32, DirEntry)>::empty());
            tagged((loc, dirs)).to_multiset_ensures();
            assert(tagged((loc, dirs)).to_multiset() =~= Multiset::empty());
            assert(src@.to_multiset().add(tagged_all(parts@, parts@.len() as int).to_multiset()) =~= src@.to_multiset().add(
                tagged_all(parts@, parts@.len() as int).to_multiset(),
            ).add(tagged((loc, dirs)).to_multiset()));
        }
    }
    assert(src@.to_multiset() =~= total) by {
        assert(tagged_all(parts@, 0) =~= Seq::<(i32, DirEntry)>::empty());
        tagged_all(parts@, 0).to_multiset_ensures();
        assert(tagged_all(parts@, 0).to_multiset() =~= Multiset::empty());
    }
    sort_by_name(&mut src);
    src
}

proof fn lemma_tagged_all_prefix(a: Seq<(i32, Vec<DirEntry>)>, b: Seq<(i32, Vec<DirEntry>)>, n: int)
    requires
        0 <= n <= a.len(),
        n <= b.len(),
        forall|i: int| 0 <= i < n ==> a[i] == b[i],
    ensures
        tagged_all(a, n) == tagged_all(b, n),
    decreases n,
{
    if n > 0 {
        lemma_tagged_all_prefix(a, b, n - 1);
    }
}

/// Sorts aggregates by name, keeping every one of them.
pub fn sort_by_name(v: &mut Vec<(i32, DirEntry)>)
    ensures
        final(v)@.to_multiset() == old(v)@.to_multiset(),
        forall|i: int, j: int| 0 <= i < j < final(v)@.len() ==> name_le(final(v)@[i], final(v)@[j]),
{
    broadcast use vstd::seq_lib::group_to_multiset_ensures;

    let ghost input = v@;
    let mut out: Vec<(i32, DirEntry)> = Vec::new();
    while v.len() > 0
        invariant
            out@.to_multiset().add(v@.to_multiset()) == input.to_multiset(),
            forall|i: int, j: int| 0 <= i < j < out@.len() ==> name_le(out@[i], out@[j]),
        decreases v@.len(),
    {
        let ghost v_before = v@;
        let x = v.pop().unwrap();
        assert(v_before =~= v@.push(x));
        proof {
            v@.to_multiset_ensures();
        }
        let mut lo: usize = 0;
        let mut hi: usize = out.len();
        while lo < hi
            invariant
                lo <= hi <= out@.len(),
                forall|i: int, j: int| 0 <= i < j < out@.len() ==> name_le(out@[i], out@[j]),
                forall|q: int| 0 <= q < lo ==> name_le(#[trigger] out@[q], x),
                forall|q: int| hi <= q < out@.len() ==> !name_le(#[trigger] out@[q], x),
            decreases hi - lo,
        {
            let mid = lo + (hi - lo) / 2;
            if str_le(out[mid].1.name.as_str(), x.1.name.as_str()) {
                proof {
                    assert forall|q: int| 0 <= q <= mid implies name_le(#[trigger] out@[q], x) by {
                        if q < mid {
                            assert(name_le(out@[q], out@[mid as int]));
                            lemma_bytes_le_trans(text_key(out@[q].1.name@), text_key(out@[mid as int].1.name@), text_key(x.1.name@));
                        }
                    }
                }
                lo = mid + 1;
            } else {
                proof {
                    assert forall|q: int| mid <= q < out@.len() implies !name_le(#[trigger] out@[q], x) by {
                        if q > mid && name_le(out@[q], x) {
                            assert(name_le(out@[mid as int], out@[q]));
                            lemma_bytes_le_trans(text_key(out@[mid as int].1.name@), text_key(out@[q].1.name@), text_key(x.1.name@));
                        }
                    }
                }
                hi = mid;
            }
        }
        let ghost before = out@;
        out.insert(lo, x);
        proof {
            lemma_insert_multiset(before, lo as int, x);
            before.insert_ensures(lo as int, x);
            assert forall|i: int, j: int| 0 <= i < j < out@.len() implies name_le(out@[i], out@[j]) by {
                if i == lo && j > lo {
                    lemma_bytes_le_total(text_key(before[j - 1].1.name@), text_key(x.1.name@));
                } else if i < lo && j > lo {
                    assert(out@[j] == before[j - 1]);
                } else if i > lo {
                    assert(out@[i] == before[i - 1] && out@[j] == before[j - 1]);
                }
            }
        }
    }
    assert(v@ =~= Seq::<(i32, DirEntry)>::empty());
    *v = out;
}

/// The aggregates of one part, each with the part's location.
pub open spec fn tagged(part: (i32, Vec<DirEntry>)) -> Seq<(i32, DirEntry)> {
    part.1@.map_values(|d: DirEntry| (part.0, d))
}

/// The aggregates of the first `n` parts, each with its location.
pub open spec fn tagged_all(parts: Seq<(i32, Vec<DirEntry>)>, n: int) -> Seq<(i32, DirEntry)>
    decreases n,
{
    if n <= 0 {
        Seq::empty()
    } else {
        tagged_all(parts, n - 1) + tagged(parts[n - 1])
    }
}


/// Whether the size of every aggregate is the sum of its files' sizes, as a
/// scan makes it.
pub fn aggregates_consistent(scan: &Vec<(i32, DirEntry)>) -> (r: bool)
    ensures
        r == forall|k: int| 0 <= k < scan@.len() ==> (#[trigger] scan@[k]).1.wf(),
{
    let mut k: usize = 0;
    while k < scan.len()
        invariant
            k <= scan@.len(),
            forall|a: int| 0 <= a < k ==> (#[trigger] scan@[a]).1.wf(),
        decreases scan@.len() - k,
    {
        let d = &scan[k].1;
        let mut total: u64 = 0;
        let mut j: usize = 0;
        while j < d.files.len()
            invariant
                j <= d.files@.len(),
                k < scan@.len(),
                *d == scan@[k as int].1,
                total as int == files_size(d.files@.take(j as int)),
            decreases d.files@.len() - j,
        {
            assert(d.files@.take(j + 1).drop_last() =~= d.files@.take(j as int));
            let add = d.files[j].size;
            if add > u64::MAX - total {
                proof {
                    lemma_files_size_prefix(d.files@, j + 1);
                    assert(files_size(d.files@.take(j + 1)) == total + add);
                    assert(!scan@[k as int].1.wf());
                }
                return false;
            }
            total = total + add;
            j = j + 1;
        }
        assert(d.files@.take(d.files@.len() as int) =~= d.files@);
        if total != d.size {
            assert(!scan@[k as int].1.wf());
            return false;
        }
        k = k + 1;
    }
    true
}

proof fn lemma_files_size_nonneg(files: Seq<FileEntry>)
    ensures
        files_size(files) >= 0,
    decreases files.len(),
{
    if files.len() > 0 {
        lemma_files_size_nonneg(files.drop_last());
    }
}

proof fn lemma_files_size_prefix(files: Seq<FileEntry>, n: int)
    requires
        0 <= n <= files.len(),
    ensures
        files_size(files.take(n)) <= files_size(files),
    decreases files.len() - n,
{
    if n < files.len() {
        lemma_files_size_prefix(files, n + 1);
        assert(files.take(n + 1).drop_last() =~= files.take(n));
    } else {
        assert(files.take(n) =~= files);
    }
}

} // verus!
