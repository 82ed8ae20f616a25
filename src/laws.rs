//! Laws that tie the catalog and the view together, proved from the
//! contracts of the functions they speak of.
use vstd::prelude::*;

use crate::lens::{label_pass, matches_of, shown_upto, Lens, Sort, SortColumn, SortOrder};
use crate::order::{in_bounds, sorted_view};
use crate::text::{bytes_le, lemma_bytes_le_antisym, lemma_bytes_le_total, text_key};
use crate::models::{files_size, DirEntry, Entry, Entry2Label, File, FileEntry};
use crate::store::{
    has_entry_id, lemma_filter_sub,
    entry_write, entry_writes, file_row_at, file_write, file_writes, files_of, fresh_file_positions,
    fresh_file_sources, fresh_files, fresh_files_for, kept_files, scanned_file_at, updated_entry, updated_file,
    first_match, entry_with_id, link_survives, reconciled_entries, fresh_entry_count, new_file,
    lemma_kept_files, lemma_first_match_at,
    add_links, agg_index, entry_at, fresh_aggs, fresh_entries, in_pairs, is_fresh_agg, kept_entries, kept_sources,
    labels_of, lemma_add_links_contains, lemma_first_match, lemma_fresh_aggs, lemma_kept_entries, lemma_pairs_contains,
    pairs, scan_at, update_result, Store,
};

verus! {

proof fn lemma_shown_upto_members(
    matched: Seq<bool>,
    inc: Set<i32>,
    exc: Set<i32>,
    store: crate::store::Store,
    n: int,
)
    requires
        n <= matched.len(),
        n <= store.entry_rows().len(),
        n <= usize::MAX,
    ensures
        forall|k: int| 0 <= k < shown_upto(matched, inc, exc, store, n).len() ==> {
            let i = #[trigger] shown_upto(matched, inc, exc, store, n)[k] as int;
            &&& 0 <= i < n
            &&& matched[i]
            &&& label_pass(inc, exc, labels_of(store.link_rows(), store.entry_rows()[i].id))
        },
    decreases n,
{
    if n > 0 {
        lemma_shown_upto_members(matched, inc, exc, store, n - 1);
        let s0 = shown_upto(matched, inc, exc, store, n - 1);
        let s1 = shown_upto(matched, inc, exc, store, n);
        assert forall|k: int| 0 <= k < s1.len() implies {
            let i = #[trigger] s1[k] as int;
            &&& 0 <= i < n
            &&& matched[i]
            &&& label_pass(inc, exc, labels_of(store.link_rows(), store.entry_rows()[i].id))
        } by {
            if k < s0.len() {
                assert(s1[k] == s0[k]);
            }
        }
    }
}

/// An entry with an excluded label is never in the view; and while some
/// label is included, every entry in the view has an included label and no
/// excluded one.
pub proof fn law_label_filter(lens: Lens)
    requires
        lens.wf(),
        lens.view_current(),
    ensures
        forall|k: int| 0 <= k < lens.view().len() ==> {
            let e = lens.store().entry_rows()[#[trigger] lens.view()[k] as int];
            let labels = labels_of(lens.store().link_rows(), e.id);
            &&& forall|l: i32| lens.excluded().contains(l) ==> !labels.contains(l)
            &&& !lens.included().is_empty() ==> exists|l: i32| lens.included().contains(l) && labels.contains(l)
        },
{
    let entries = lens.store().entry_rows();
    let m = matches_of(lens.pattern(), entries);
    let shown = shown_upto(m, lens.included(), lens.excluded(), lens.store(), entries.len() as int);
    lens.lemma_wf();
    lens.store().lemma_keys();
    lemma_shown_upto_members(m, lens.included(), lens.excluded(), lens.store(), entries.len() as int);
    assert forall|k: int| 0 <= k < lens.view().len() implies {
        let e = lens.store().entry_rows()[#[trigger] lens.view()[k] as int];
        let labels = labels_of(lens.store().link_rows(), e.id);
        &&& forall|l: i32| lens.excluded().contains(l) ==> !labels.contains(l)
        &&& !lens.included().is_empty() ==> exists|l: i32| lens.included().contains(l) && labels.contains(l)
    } by {
        let x = lens.view()[k];
        lens.view().to_multiset_ensures();
        shown.to_multiset_ensures();
        assert(lens.view().contains(x));
        assert(shown.to_multiset().count(x) > 0);
        assert(shown.contains(x));
        let q = choose|q: int| 0 <= q < shown.len() && shown[q] == x;
        assert(shown[q] == x);
    }
}


/// Attaching labels `ls` to entries `es` and then detaching them again
/// gives every entry back the labels it had, where none of those pairs was
/// attached before; whether the attaching succeeded or, naming an unknown
/// entry or label, changed nothing.
pub proof fn law_label_round_trip(
    s0: Store,
    s1: Store,
    s2: Store,
    es: Seq<i32>,
    ls: Seq<i32>,
    r1: Result<(), crate::store::StoreError>,
)
    requires
        r1 is Ok ==> s1.link_rows() == add_links(s0.link_rows(), pairs(es, ls)),
        r1 is Err ==> s1.link_rows() == s0.link_rows(),
        s2.link_rows() == s1.link_rows().filter(|x: Entry2Label| !in_pairs(es, ls)(x)),
        forall|x: Entry2Label| in_pairs(es, ls)(x) ==> !s0.link_rows().contains(x),
    ensures
        forall|e: i32| #[trigger] labels_of(s2.link_rows(), e) == labels_of(s0.link_rows(), e),
{
    broadcast use vstd::seq_lib::group_filter_ensures;

    lemma_add_links_contains(s0.link_rows(), pairs(es, ls));
    lemma_pairs_contains(es, ls);
    assert forall|x: Entry2Label| #[trigger] s1.link_rows().contains(x) implies s0.link_rows().contains(x) || in_pairs(es, ls)(x) by {
        if r1 is Ok {
            assert(add_links(s0.link_rows(), pairs(es, ls)).contains(x));
        }
    }
    assert forall|x: Entry2Label| #[trigger] s0.link_rows().contains(x) implies s1.link_rows().contains(x) by {
        if r1 is Ok {
            assert(add_links(s0.link_rows(), pairs(es, ls)).contains(x));
        }
    }
    let keep = |x: Entry2Label| !in_pairs(es, ls)(x);
    assert forall|e: i32| #[trigger] labels_of(s2.link_rows(), e) == labels_of(s0.link_rows(), e) by {
        assert forall|l: i32| labels_of(s2.link_rows(), e).contains(l) <==> labels_of(s0.link_rows(), e).contains(l) by {
            let x = Entry2Label { entry_id: e, label_id: l };
            if s1.link_rows().filter(keep).contains(x) {
                s1.link_rows().lemma_filter_contains_rev(keep, x);
                let k = choose|k: int| 0 <= k < s1.link_rows().filter(keep).len() && s1.link_rows().filter(keep)[k] == x;
                assert(keep(s1.link_rows().filter(keep)[k]));
            }
            if s0.link_rows().contains(x) {
                assert(s1.link_rows().contains(x));
                let k = choose|k: int| 0 <= k < s1.link_rows().len() && s1.link_rows()[k] == x;
                assert(s1.link_rows().filter(keep).contains(s1.link_rows()[k]));
            }
        }
        assert(labels_of(s2.link_rows(), e) =~= labels_of(s0.link_rows(), e));
    }
}


/// After an update with a scan, the catalog holds one entry for each path of
/// the scan and none for a path the scan lacks; each entry has the size of
/// the aggregate at its path, the sum of that aggregate's files; every file
/// row and label association belongs to one of those entries. The update
/// fails, changing nothing, only when the new rows do not fit in the id
/// space.
pub proof fn law_update_entries(
    old_s: Store,
    new_s: Store,
    scan: Seq<(i32, DirEntry)>,
    r: Result<(), crate::store::StoreError>,
)
    requires
        old_s.wf(),
        new_s.wf(),
        update_result(old_s, new_s, scan, r),
        forall|k: int| 0 <= k < scan.len() ==> (#[trigger] scan[k]).1.wf(),
    ensures
        r is Err ==> new_s == old_s,
        r is Ok ==> forall|i: int| 0 <= i < new_s.entry_rows().len() ==> #[trigger] agg_index(scan, new_s.entry_rows()[i].path@) is Some,
        r is Ok ==> forall|k: int| 0 <= k < scan.len() ==> exists|i: int| 0 <= i < new_s.entry_rows().len()
            && #[trigger] new_s.entry_rows()[i].path@ == (#[trigger] scan[k]).1.path@,
        forall|i: int, j: int| 0 <= i < j < new_s.entry_rows().len() ==> new_s.entry_rows()[i].path@ != new_s.entry_rows()[j].path@,
        r is Ok ==> forall|i: int| 0 <= i < new_s.entry_rows().len() ==> (#[trigger] new_s.entry_rows()[i]).size
            == files_size(scan[agg_index(scan, new_s.entry_rows()[i].path@).unwrap()].1.files@) as i64,
        forall|i: int| 0 <= i < new_s.file_rows().len() ==> has_entry_id(new_s.entry_rows(), #[trigger] new_s.file_rows()[i].entry_id),
        forall|i: int| 0 <= i < new_s.link_rows().len() ==> has_entry_id(new_s.entry_rows(), #[trigger] new_s.link_rows()[i].entry_id),
{
    new_s.lemma_keys();
    if r is Ok {
        let new_e = new_s.entry_rows();
        lemma_update_entries_shape(old_s, new_s, scan, r);
        assert forall|i: int| 0 <= i < new_e.len() implies (#[trigger] new_e[i]).size
            == files_size(scan[agg_index(scan, new_e[i].path@).unwrap()].1.files@) as i64 by {
            assert(agg_index(scan, new_e[i].path@) is Some);
            let k = agg_index(scan, new_e[i].path@).unwrap();
            lemma_first_match(scan, scan_at(new_e[i].path@));
            assert(scan[k].1.wf());
        }
    }
}

/// Where the entry rows after a successful update come from: each stands at
/// a path of the scan with the size of the aggregate there, and each path of
/// the scan has one.
proof fn lemma_update_entries_shape(
    old_s: Store,
    new_s: Store,
    scan: Seq<(i32, DirEntry)>,
    r: Result<(), crate::store::StoreError>,
)
    requires
        r is Ok,
        old_s.wf(),
        new_s.wf(),
        update_result(old_s, new_s, scan, r),
    ensures
        forall|i: int| 0 <= i < new_s.entry_rows().len() ==> #[trigger] agg_index(scan, new_s.entry_rows()[i].path@) is Some,
        forall|k: int| 0 <= k < scan.len() ==> exists|i: int| 0 <= i < new_s.entry_rows().len()
            && #[trigger] new_s.entry_rows()[i].path@ == (#[trigger] scan[k]).1.path@,
        forall|i: int, j: int| 0 <= i < j < new_s.entry_rows().len() ==> new_s.entry_rows()[i].path@ != new_s.entry_rows()[j].path@,
        forall|i: int| 0 <= i < new_s.entry_rows().len() ==> (#[trigger] new_s.entry_rows()[i]).size
            == scan[agg_index(scan, new_s.entry_rows()[i].path@).unwrap()].1.size as i64,
{
    let old_e = old_s.entry_rows();
    let new_e = new_s.entry_rows();
    let kept = kept_entries(old_e, scan);
    let src = kept_sources(old_e, scan);
    let fa = fresh_aggs(old_e, scan, scan.len() as int);
    let fresh = fresh_entries(old_e, scan, old_s.next_id() as int);
    lemma_kept_entries(old_e, scan);
    lemma_fresh_aggs(old_e, scan, scan.len() as int);
    new_s.lemma_keys();
    old_s.lemma_keys();
    assert(new_e == kept + fresh);
    assert forall|i: int| 0 <= i < new_e.len() implies {
        &&& #[trigger] agg_index(scan, new_e[i].path@) is Some
        &&& new_e[i].size == scan[agg_index(scan, new_e[i].path@).unwrap()].1.size as i64
    } by {
        if i < kept.len() {
            assert(new_e[i] == kept[i]);
            assert(0 <= src[i] < old_e.len());
        } else {
            let q = i - kept.len();
            assert(new_e[i] == fresh[q]);
            assert(is_fresh_agg(old_e, scan, fa[q]));
        }
    }
    assert forall|k: int| 0 <= k < scan.len() implies exists|i: int| 0 <= i < new_e.len()
        && #[trigger] new_e[i].path@ == (#[trigger] scan[k]).1.path@ by {
        let p = scan[k].1.path@;
        lemma_first_match(scan, scan_at(p));
        assert(scan_at(p)(scan[k]));
        let k0 = agg_index(scan, p).unwrap();
        lemma_first_match(old_e, entry_at(p));
        match crate::store::first_match(old_e, entry_at(p)) {
            Some(o) => {
                assert(old_e[o].path@ == p);
                assert(agg_index(scan, old_e[o].path@) is Some);
                let j = choose|j: int| 0 <= j < src.len() && src[j] == o;
                assert(new_e[j] == kept[j]);
                assert(new_e[j].path@ == p);
            },
            None => {
                assert(scan[k0].1.path@ == p);
                assert(is_fresh_agg(old_e, scan, k0));
                let q = choose|q: int| 0 <= q < fa.len() && fa[q] == k0;
                assert(new_e[kept.len() + q] == fresh[q]);
                assert(new_e[kept.len() + q].path@ == p);
            },
        }
    }
}


/// The key that orders entry `x` by name.
pub open spec fn name_key(entries: Seq<Entry>, x: usize) -> Seq<u8> {
    text_key(entries[x as int].name@)
}

/// Two arrangements of the same positions, one ascending and one
/// descending by name, hold their names in exactly reverse order.
pub proof fn lemma_sorted_reverse(entries: Seq<Entry>, a: Seq<usize>, b: Seq<usize>)
    requires
        a.to_multiset() == b.to_multiset(),
        in_bounds(a, entries.len() as int),
        in_bounds(b, entries.len() as int),
        sorted_view(a, entries, SortColumn::Name, SortOrder::Asc),
        sorted_view(b, entries, SortColumn::Name, SortOrder::Desc),
    ensures
        a.len() == b.len(),
        forall|i: int| 0 <= i < a.len() ==> name_key(entries, #[trigger] a[i]) == name_key(entries, b[b.len() - 1 - i]),
    decreases a.len(),
{
    a.to_multiset_ensures();
    b.to_multiset_ensures();
    if a.len() > 0 {
        let n = a.len();
        let x = a[0];
        assert(a.contains(x)) by {
            assert(a[0] == x);
        }
        assert(a.to_multiset().count(x) > 0);
        assert(b.to_multiset().count(x) > 0);
        assert(b.contains(x));
        let j = choose|j: int| 0 <= j < b.len() && b[j] == x;
        let last = b[n - 1];
        assert(b.contains(last)) by {
            assert(b[n - 1] == last);
        }
        assert(b.to_multiset().count(last) > 0);
        assert(a.to_multiset().count(last) > 0);
        assert(a.contains(last));
        let t = choose|t: int| 0 <= t < a.len() && a[t] == last;
        lemma_bytes_le_total(name_key(entries, x), name_key(entries, x));
        assert(bytes_le(name_key(entries, x), name_key(entries, last))) by {
            if t > 0 {
                assert(crate::order::view_le(entries[a[0] as int], entries[a[t] as int], SortColumn::Name, SortOrder::Asc));
            }
        }
        assert(bytes_le(name_key(entries, last), name_key(entries, x))) by {
            if j < n - 1 {
                assert(crate::order::view_le(entries[b[j] as int], entries[b[n - 1] as int], SortColumn::Name, SortOrder::Desc));
            }
        }
        lemma_bytes_le_antisym(name_key(entries, x), name_key(entries, last));
        assert forall|m: int| j <= m < n implies name_key(entries, #[trigger] b[m]) == name_key(entries, x) by {
            if m < n - 1 {
                assert(crate::order::view_le(entries[b[m] as int], entries[b[n - 1] as int], SortColumn::Name, SortOrder::Desc));
                assert(bytes_le(name_key(entries, last), name_key(entries, b[m])));
            }
            if m > j {
                assert(crate::order::view_le(entries[b[j] as int], entries[b[m] as int], SortColumn::Name, SortOrder::Desc));
                assert(bytes_le(name_key(entries, b[m]), name_key(entries, x)));
            }
            lemma_bytes_le_total(name_key(entries, b[m]), name_key(entries, b[m]));
            lemma_bytes_le_antisym(name_key(entries, x), name_key(entries, b[m]));
        }
        let a2 = a.drop_first();
        let b2 = b.remove(j);
        assert(a.remove(0) =~= a2);
        b.remove_ensures(j);
        assert(a2.to_multiset() == b2.to_multiset());
        assert forall|p: int, q: int| 0 <= p < q < b2.len() implies crate::order::view_le(
            entries[b2[p] as int],
            entries[b2[q] as int],
            SortColumn::Name,
            SortOrder::Desc,
        ) by {
            let pa = if p < j { p } else { p + 1 };
            let qa = if q < j { q } else { q + 1 };
            assert(b2[p] == b[pa] && b2[q] == b[qa]);
        }
        assert forall|p: int, q: int| 0 <= p < q < a2.len() implies crate::order::view_le(
            entries[a2[p] as int],
            entries[a2[q] as int],
            SortColumn::Name,
            SortOrder::Asc,
        ) by {
            assert(a2[p] == a[p + 1] && a2[q] == a[q + 1]);
        }
        assert forall|i: int| 0 <= i < b2.len() implies #[trigger] b2[i] < entries.len() by {
            if i < j {
                assert(b2[i] == b[i]);
            } else {
                assert(b2[i] == b[i + 1]);
            }
        }
        assert forall|i: int| 0 <= i < a2.len() implies #[trigger] a2[i] < entries.len() by {
            assert(a2[i] == a[i + 1]);
        }
        lemma_sorted_reverse(entries, a2, b2);
        assert forall|i: int| 0 <= i < a.len() implies name_key(entries, #[trigger] a[i]) == name_key(entries, b[b.len() - 1 - i]) by {
            if i > 0 {
                let m = n - 1 - i;
                assert(a[i] == a2[i - 1]);
                assert(name_key(entries, a2[i - 1]) == name_key(entries, b2[b2.len() - 1 - (i - 1)]));
                if m < j {
                    assert(b2[m] == b[m]);
                } else {
                    assert(b2[m] == b[m + 1]);
                    assert(name_key(entries, b[m + 1]) == name_key(entries, x));
                    assert(name_key(entries, b[m]) == name_key(entries, x));
                }
            }
        }
    }
}

/// Sorted by name ascending, the view lists names in lexicographic order;
/// sorted by name descending, the same view lists exactly the reverse, and
/// where the names differ, the very same entries in reverse order.
pub proof fn law_name_order(asc: Lens, desc: Lens)
    requires
        asc.wf(),
        desc.wf(),
        asc.view_current(),
        desc.view_current(),
        asc.store() == desc.store(),
        asc.included() == desc.included(),
        asc.excluded() == desc.excluded(),
        asc.pattern() == desc.pattern(),
        asc.sort_spec() == (Sort { column: SortColumn::Name, order: SortOrder::Asc }),
        desc.sort_spec() == (Sort { column: SortColumn::Name, order: SortOrder::Desc }),
    ensures
        forall|i: int, j: int| 0 <= i < j < asc.view().len() ==> bytes_le(
            text_key(asc.store().entry_rows()[asc.view()[i] as int].name@),
            text_key(asc.store().entry_rows()[asc.view()[j] as int].name@),
        ),
        desc.view().len() == asc.view().len(),
        forall|i: int| 0 <= i < asc.view().len() ==> (#[trigger] asc.store().entry_rows()[asc.view()[i] as int]).name@
            == desc.store().entry_rows()[desc.view()[desc.view().len() - 1 - i] as int].name@,
        (forall|i: int, j: int| 0 <= i < j < asc.view().len()
            ==> asc.store().entry_rows()[asc.view()[i] as int].name@ != asc.store().entry_rows()[asc.view()[j] as int].name@)
            ==> forall|i: int| 0 <= i < asc.view().len() ==> #[trigger] desc.view()[desc.view().len() - 1 - i] == asc.view()[i],
{
    broadcast use vstd::utf8::encode_utf8_decode_utf8;

    asc.lemma_wf();
    desc.lemma_wf();
    let entries = asc.store().entry_rows();
    lemma_sorted_reverse(entries, asc.view(), desc.view());
    assert forall|i: int, j: int| 0 <= i < j < asc.view().len() implies bytes_le(
        text_key(asc.store().entry_rows()[asc.view()[i] as int].name@),
        text_key(asc.store().entry_rows()[asc.view()[j] as int].name@),
    ) by {
        assert(crate::order::view_le(entries[asc.view()[i] as int], entries[asc.view()[j] as int], SortColumn::Name, SortOrder::Asc));
    }
    assert forall|i: int| 0 <= i < asc.view().len() implies (#[trigger] asc.store().entry_rows()[asc.view()[i] as int]).name@
        == desc.store().entry_rows()[desc.view()[desc.view().len() - 1 - i] as int].name@ by {
        let p = entries[asc.view()[i] as int].name@;
        let q = entries[desc.view()[desc.view().len() - 1 - i] as int].name@;
        assert(name_key(entries, asc.view()[i]) == name_key(entries, desc.view()[desc.view().len() - 1 - i]));
        assert(vstd::utf8::decode_utf8(text_key(p)) == p);
        assert(vstd::utf8::decode_utf8(text_key(q)) == q);
    }
    let n = asc.view().len();
    if forall|i: int, j: int| 0 <= i < j < n
        ==> entries[asc.view()[i] as int].name@ != entries[asc.view()[j] as int].name@ {
        assert(asc.view().to_multiset() == desc.view().to_multiset());
        asc.view().to_multiset_ensures();
        desc.view().to_multiset_ensures();
        assert forall|i: int| 0 <= i < n implies #[trigger] desc.view()[desc.view().len() - 1 - i] == asc.view()[i] by {
            let x = desc.view()[desc.view().len() - 1 - i];
            assert(desc.view().contains(x));
            assert(desc.view().to_multiset().count(x) > 0);
            assert(asc.view().to_multiset().count(x) > 0);
            let j = choose|j: int| 0 <= j < n && asc.view()[j] == x;
            assert(entries[asc.view()[i] as int].name@ == entries[asc.view()[j] as int].name@);
            if j < i {
                assert(entries[asc.view()[j] as int].name@ != entries[asc.view()[i] as int].name@);
            } else if i < j {
                assert(entries[asc.view()[i] as int].name@ != entries[asc.view()[j] as int].name@);
            }
        }
    }
}


proof fn lemma_entries_settled(rows: Seq<Entry>, scan: Seq<(i32, DirEntry)>)
    requires
        forall|i: int| 0 <= i < rows.len() ==> updated_entry(#[trigger] rows[i], scan) == Some(rows[i]),
    ensures
        kept_entries(rows, scan) == rows,
        entry_writes(rows, scan) == Seq::<crate::store::Write>::empty(),
    decreases rows.len(),
{
    if rows.len() > 0 {
        let pre = rows.drop_last();
        assert forall|i: int| 0 <= i < pre.len() implies updated_entry(#[trigger] pre[i], scan) == Some(pre[i]) by {
            assert(pre[i] == rows[i]);
        }
        lemma_entries_settled(pre, scan);
        assert(updated_entry(rows[rows.len() - 1], scan) == Some(rows.last()));
        assert(entry_write(rows.last(), scan) =~= Seq::<crate::store::Write>::empty());
        assert(kept_entries(rows, scan) =~= rows);
        assert(entry_writes(rows, scan) =~= Seq::<crate::store::Write>::empty());
    }
}

proof fn lemma_no_fresh_aggs(rows: Seq<Entry>, scan: Seq<(i32, DirEntry)>, n: int)
    requires
        forall|k: int| 0 <= k < n ==> !is_fresh_agg(rows, scan, k),
    ensures
        fresh_aggs(rows, scan, n) == Seq::<int>::empty(),
    decreases n,
{
    if n > 0 {
        lemma_no_fresh_aggs(rows, scan, n - 1);
    }
}

proof fn lemma_files_settled(rows: Seq<Entry>, scan: Seq<(i32, DirEntry)>, files: Seq<File>)
    requires
        forall|i: int| 0 <= i < files.len() ==> updated_file(rows, scan, #[trigger] files[i]) == Some(files[i]),
    ensures
        kept_files(rows, scan, files) == files,
        file_writes(rows, scan, files) == Seq::<crate::store::Write>::empty(),
    decreases files.len(),
{
    if files.len() > 0 {
        let pre = files.drop_last();
        assert forall|i: int| 0 <= i < pre.len() implies updated_file(rows, scan, #[trigger] pre[i]) == Some(pre[i]) by {
            assert(pre[i] == files[i]);
        }
        lemma_files_settled(rows, scan, pre);
        assert(updated_file(rows, scan, files[files.len() - 1]) == Some(files.last()));
        assert(file_write(rows, scan, files.last()) =~= Seq::<crate::store::Write>::empty());
        assert(kept_files(rows, scan, files) =~= files);
        assert(file_writes(rows, scan, files) =~= Seq::<crate::store::Write>::empty());
    }
}

proof fn lemma_no_positions(d: Seq<FileEntry>, olds: Seq<File>, n: int)
    requires
        n <= d.len(),
        forall|m: int| 0 <= m < n && first_match(d, scanned_file_at((#[trigger] d[m]).path@)) == Some(m)
            ==> first_match(olds, file_row_at(d[m].path@)) is Some,
    ensures
        fresh_file_positions(d, olds, n) == Seq::<int>::empty(),
    decreases n,
{
    if n > 0 {
        lemma_no_positions(d, olds, n - 1);
    }
}

proof fn lemma_no_sources(rows: Seq<Entry>, scan: Seq<(i32, DirEntry)>, files: Seq<File>, n: int)
    requires
        n <= rows.len(),
        forall|w: int| 0 <= w < n ==> fresh_files_for(#[trigger] rows[w], scan, files) == Seq::<(i32, FileEntry)>::empty(),
    ensures
        fresh_file_sources(rows, scan, files, n) == Seq::<(i32, FileEntry)>::empty(),
    decreases n,
{
    if n > 0 {
        lemma_no_sources(rows, scan, files, n - 1);
        assert(fresh_files_for(rows[n - 1], scan, files) == Seq::<(i32, FileEntry)>::empty());
        assert(fresh_file_sources(rows, scan, files, n) =~= Seq::<(i32, FileEntry)>::empty());
    }
}

proof fn lemma_positions_complete(d: Seq<FileEntry>, olds: Seq<File>, n: int)
    requires
        n <= d.len(),
    ensures
        forall|m: int| 0 <= m < n && first_match(d, scanned_file_at((#[trigger] d[m]).path@)) == Some(m)
            && first_match(olds, file_row_at(d[m].path@)) is None ==> fresh_file_positions(d, olds, n).contains(m),
    decreases n,
{
    if n > 0 {
        lemma_positions_complete(d, olds, n - 1);
        let prev = fresh_file_positions(d, olds, n - 1);
        let p = fresh_file_positions(d, olds, n);
        assert forall|m: int| 0 <= m < n && first_match(d, scanned_file_at((#[trigger] d[m]).path@)) == Some(m)
            && first_match(olds, file_row_at(d[m].path@)) is None implies p.contains(m) by {
            if m < n - 1 {
                assert(prev.contains(m));
                let x = choose|x: int| 0 <= x < prev.len() && prev[x] == m;
                assert(p[x] == m);
            } else {
                assert(p[p.len() - 1] == m);
            }
        }
    }
}

proof fn lemma_sources_complete(rows: Seq<Entry>, scan: Seq<(i32, DirEntry)>, files: Seq<File>, n: int)
    requires
        n <= rows.len(),
    ensures
        forall|w: int, x: (i32, FileEntry)| 0 <= w < n && #[trigger] fresh_files_for(rows[w], scan, files).contains(x)
            ==> fresh_file_sources(rows, scan, files, n).contains(x),
    decreases n,
{
    if n > 0 {
        lemma_sources_complete(rows, scan, files, n - 1);
        let s0 = fresh_file_sources(rows, scan, files, n - 1);
        let t = fresh_files_for(rows[n - 1], scan, files);
        let s = fresh_file_sources(rows, scan, files, n);
        assert(s == s0 + t);
        assert forall|w: int, x: (i32, FileEntry)| 0 <= w < n && #[trigger] fresh_files_for(rows[w], scan, files).contains(x)
            implies s.contains(x) by {
            if w < n - 1 {
                assert(s0.contains(x));
                let y = choose|y: int| 0 <= y < s0.len() && s0[y] == x;
                assert(s[y] == x);
            } else {
                let y = choose|y: int| 0 <= y < t.len() && t[y] == x;
                assert(s[s0.len() + y] == x);
            }
        }
    }
}

proof fn lemma_kept_files_complete(rows: Seq<Entry>, scan: Seq<(i32, DirEntry)>, files: Seq<File>)
    ensures
        forall|i: int| 0 <= i < files.len() && (#[trigger] updated_file(rows, scan, files[i])) is Some
            ==> kept_files(rows, scan, files).contains(updated_file(rows, scan, files[i]).unwrap()),
    decreases files.len(),
{
    if files.len() > 0 {
        let pre = files.drop_last();
        lemma_kept_files_complete(rows, scan, pre);
        let k0 = kept_files(rows, scan, pre);
        let k = kept_files(rows, scan, files);
        assert forall|i: int| 0 <= i < files.len() && (#[trigger] updated_file(rows, scan, files[i])) is Some
            implies k.contains(updated_file(rows, scan, files[i]).unwrap()) by {
            if i < files.len() - 1 {
                assert(pre[i] == files[i]);
                assert(updated_file(rows, scan, pre[i]) is Some);
                let g = updated_file(rows, scan, files[i]).unwrap();
                assert(k0.contains(g));
                let y = choose|y: int| 0 <= y < k0.len() && k0[y] == g;
                assert(k[y] == g);
            } else {
                assert(k[k.len() - 1] == updated_file(rows, scan, files[i]).unwrap());
            }
        }
    }
}

/// `src` is the `m`-th scanned file of the aggregate of entry row `w`,
/// given with that entry's id, and the first scanned file at its path.
pub open spec fn source_at(rows: Seq<Entry>, scan: Seq<(i32, DirEntry)>, src: (i32, FileEntry), w: int, m: int) -> bool {
    &&& 0 <= w < rows.len()
    &&& agg_index(scan, rows[w].path@) is Some
    &&& 0 <= m < scan[agg_index(scan, rows[w].path@).unwrap()].1.files@.len()
    &&& first_match(scan[agg_index(scan, rows[w].path@).unwrap()].1.files@, scanned_file_at(
        scan[agg_index(scan, rows[w].path@).unwrap()].1.files@[m].path@)) == Some(m)
    &&& src == (rows[w].id, scan[agg_index(scan, rows[w].path@).unwrap()].1.files@[m])
}

/// `src` is a scanned file of the aggregate of one of the first `n` entry
/// rows, the first at its path, given with that entry's id.
pub open spec fn source_ok(rows: Seq<Entry>, scan: Seq<(i32, DirEntry)>, src: (i32, FileEntry), n: int) -> bool {
    exists|w: int, m: int| w < n && #[trigger] source_at(rows, scan, src, w, m)
}

proof fn lemma_sources_witness(rows: Seq<Entry>, scan: Seq<(i32, DirEntry)>, files: Seq<File>, n: int)
    requires
        n <= rows.len(),
    ensures
        forall|q: int| 0 <= q < fresh_file_sources(rows, scan, files, n).len()
            ==> source_ok(rows, scan, #[trigger] fresh_file_sources(rows, scan, files, n)[q], n),
    decreases n,
{
    if n > 0 {
        lemma_sources_witness(rows, scan, files, n - 1);
        let s0 = fresh_file_sources(rows, scan, files, n - 1);
        let e = rows[n - 1];
        let t = fresh_files_for(e, scan, files);
        let s = fresh_file_sources(rows, scan, files, n);
        assert(s == s0 + t);
        assert forall|q: int| 0 <= q < s.len() implies source_ok(rows, scan, #[trigger] s[q], n) by {
            if q < s0.len() {
                assert(s[q] == s0[q]);
                assert(source_ok(rows, scan, s0[q], n - 1));
                let (w, m) = choose|w: int, m: int| w < n - 1 && #[trigger] source_at(rows, scan, s0[q], w, m);
                assert(source_at(rows, scan, s[q], w, m));
            } else {
                assert(agg_index(scan, e.path@) is Some);
                lemma_first_match(scan, scan_at(e.path@));
                let k = agg_index(scan, e.path@).unwrap();
                let d = scan[k].1.files@;
                let pos = fresh_file_positions(d, files_of(files, e.id), d.len() as int);
                lemma_positions_members(d, files_of(files, e.id), d.len() as int);
                let m = pos[q - s0.len()];
                assert(s[q] == t[q - s0.len()]);
                assert(t[q - s0.len()] == (e.id, d[m]));
                assert(source_at(rows, scan, s[q], n - 1, m));
            }
        }
    }
}

proof fn lemma_positions_members(d: Seq<FileEntry>, olds: Seq<File>, n: int)
    requires
        n <= d.len(),
    ensures
        forall|x: int| 0 <= x < fresh_file_positions(d, olds, n).len() ==> {
            let m = #[trigger] fresh_file_positions(d, olds, n)[x];
            &&& 0 <= m < n
            &&& first_match(d, scanned_file_at(d[m].path@)) == Some(m)
            &&& first_match(olds, file_row_at(d[m].path@)) is None
        },
    decreases n,
{
    if n > 0 {
        lemma_positions_members(d, olds, n - 1);
        let prev = fresh_file_positions(d, olds, n - 1);
        let p = fresh_file_positions(d, olds, n);
        assert forall|x: int| 0 <= x < p.len() implies {
            let m = #[trigger] p[x];
            &&& 0 <= m < n
            &&& first_match(d, scanned_file_at(d[m].path@)) == Some(m)
            &&& first_match(olds, file_row_at(d[m].path@)) is None
        } by {
            if x < prev.len() {
                assert(p[x] == prev[x]);
            }
        }
    }
}


proof fn lemma_filter_all<T>(s: Seq<T>, p: spec_fn(T) -> bool)
    requires
        forall|i: int| 0 <= i < s.len() ==> p(#[trigger] s[i]),
    ensures
        s.filter(p) == s,
    decreases s.len(),
{
    if s.len() > 0 {
        let pre = s.drop_last();
        assert(s =~= pre.push(s.last()));
        pre.lemma_filter_push(s.last(), p);
        assert forall|i: int| 0 <= i < pre.len() implies p(#[trigger] pre[i]) by {
            assert(pre[i] == s[i]);
        }
        lemma_filter_all(pre, p);
        assert(p(s[s.len() - 1]));
    }
}

/// Entry row `j` is the one with its id, in rows of ascending ids.
proof fn lemma_unique_id(rows: Seq<Entry>, j: int)
    requires
        crate::store::ids_ascending(rows),
        0 <= j < rows.len(),
    ensures
        first_match(rows, entry_with_id(rows[j].id)) == Some(j),
{
    assert forall|x: int| 0 <= x < j implies !entry_with_id(rows[j].id)(#[trigger] rows[x]) by {
        assert(rows[x].id < rows[j].id);
    }
    lemma_first_match_at(rows, entry_with_id(rows[j].id), j);
}

/// What the catalog holds after a successful update: every row already
/// agrees with the scan.
proof fn lemma_settled_after_update(
    s0: Store,
    s1: Store,
    scan: Seq<(i32, DirEntry)>,
    r: Result<(), crate::store::StoreError>,
)
    requires
        r is Ok,
        s0.wf(),
        s1.wf(),
        update_result(s0, s1, scan, r),
    ensures
        forall|i: int| 0 <= i < s1.entry_rows().len() ==> updated_entry(#[trigger] s1.entry_rows()[i], scan) == Some(s1.entry_rows()[i]),
        forall|k: int| 0 <= k < scan.len() ==> !is_fresh_agg(s1.entry_rows(), scan, k),
        forall|i: int| 0 <= i < s1.file_rows().len() ==> updated_file(s1.entry_rows(), scan, #[trigger] s1.file_rows()[i]) == Some(s1.file_rows()[i]),
        forall|w: int| 0 <= w < s1.entry_rows().len() ==> fresh_files_for(#[trigger] s1.entry_rows()[w], scan, s1.file_rows()) == Seq::<(i32, FileEntry)>::empty(),
        forall|i: int| 0 <= i < s1.link_rows().len() ==> link_survives(s1.entry_rows(), scan)(#[trigger] s1.link_rows()[i]),
{
    let e0 = s0.entry_rows();
    let f0 = s0.file_rows();
    let e1 = s1.entry_rows();
    let f1 = s1.file_rows();
    let base = s0.next_id() as int;
    let kept = kept_entries(e0, scan);
    let src = kept_sources(e0, scan);
    let fa = fresh_aggs(e0, scan, scan.len() as int);
    let fresh = fresh_entries(e0, scan, base);
    let n_e = fresh_entry_count(e0, scan);
    let kf = kept_files(e0, scan, f0);
    let ff = fresh_files(e1, scan, f0, base + n_e);
    let srcs = fresh_file_sources(e1, scan, f0, e1.len() as int);
    lemma_kept_entries(e0, scan);
    lemma_fresh_aggs(e0, scan, scan.len() as int);
    s0.lemma_keys();
    s1.lemma_keys();
    lemma_update_entries_shape(s0, s1, scan, r);
    assert(e1 == kept + fresh);
    assert(f1 == kf + ff);
    // Entry rows.
    assert forall|i: int| 0 <= i < e1.len() implies updated_entry(#[trigger] e1[i], scan) == Some(e1[i]) by {
        if i < kept.len() {
            assert(e1[i] == kept[i]);
            assert(0 <= src[i] < e0.len());
        } else {
            let q = i - kept.len();
            assert(e1[i] == fresh[q]);
            assert(is_fresh_agg(e0, scan, fa[q]));
        }
    }
    assert forall|k: int| 0 <= k < scan.len() implies !is_fresh_agg(e1, scan, k) by {
        let p = scan[k].1.path@;
        assert(exists|i: int| 0 <= i < e1.len() && #[trigger] e1[i].path@ == (#[trigger] scan[k]).1.path@);
        let i = choose|i: int| 0 <= i < e1.len() && #[trigger] e1[i].path@ == (#[trigger] scan[k]).1.path@;
        lemma_first_match(e1, entry_at(p));
        assert(entry_at(p)(e1[i]));
    }
    // File rows.
    lemma_kept_files(e0, scan, f0);
    lemma_sources_witness(e1, scan, f0, e1.len() as int);
    assert forall|i: int| 0 <= i < f1.len() implies updated_file(e1, scan, #[trigger] f1[i]) == Some(f1[i]) by {
        if i < kf.len() {
            assert(f1[i] == kf[i]);
            let x = choose|x: int| 0 <= x < f0.len() && updated_file(e0, scan, f0[x]) == Some(kf[i]);
            let g0 = f0[x];
            lemma_first_match(e0, entry_with_id(g0.entry_id));
            let o = first_match(e0, entry_with_id(g0.entry_id)).unwrap();
            let j = choose|j: int| 0 <= j < src.len() && src[j] == o;
            assert(e1[j] == kept[j]);
            lemma_unique_id(e1, j);
        } else {
            let q = i - kf.len();
            assert(f1[i] == ff[q]);
            assert(ff[q] == new_file(srcs[q], base + n_e + q));
            assert(source_ok(e1, scan, srcs[q], e1.len() as int));
            let (w, m) = choose|w: int, m: int| w < e1.len() && #[trigger] source_at(e1, scan, srcs[q], w, m);
            lemma_unique_id(e1, w);
        }
    }
    // No scanned file lacks a row.
    lemma_sources_complete(e1, scan, f0, e1.len() as int);
    lemma_kept_files_complete(e0, scan, f0);
    assert forall|w: int| 0 <= w < e1.len() implies fresh_files_for(#[trigger] e1[w], scan, f1) == Seq::<(i32, FileEntry)>::empty() by {
        let e = e1[w];
        let id = e.id;
        assert(updated_entry(e1[w], scan) == Some(e1[w]));
        lemma_first_match(scan, scan_at(e.path@));
        let k = agg_index(scan, e.path@).unwrap();
        let d = scan[k].1.files@;
        let olds1 = files_of(f1, id);
        let olds0 = files_of(f0, id);
        lemma_positions_complete(d, olds0, d.len() as int);
        assert forall|m: int| 0 <= m < d.len() && first_match(d, scanned_file_at((#[trigger] d[m]).path@)) == Some(m)
            implies first_match(olds1, file_row_at(d[m].path@)) is Some by {
            let p = d[m].path@;
            // Some file row of the entry stands at p.
            let g: File = if first_match(olds0, file_row_at(p)) is None {
                assert(fresh_file_positions(d, olds0, d.len() as int).contains(m));
                let y = choose|y: int| 0 <= y < fresh_file_positions(d, olds0, d.len() as int).len()
                    && fresh_file_positions(d, olds0, d.len() as int)[y] == m;
                let t = fresh_files_for(e, scan, f0);
                assert(t[y] == (id, d[m]));
                assert(t.contains((id, d[m])));
                assert(srcs.contains((id, d[m])));
                let q = choose|q: int| 0 <= q < srcs.len() && srcs[q] == (id, d[m]);
                assert(f1[kf.len() + q] == ff[q]);
                ff[q]
            } else {
                lemma_first_match(olds0, file_row_at(p));
                let x = first_match(olds0, file_row_at(p)).unwrap();
                lemma_filter_sub(f0, |f: File| f.entry_id == id);
                let g0 = olds0[x];
                assert(f0.contains(g0));
                let z = choose|z: int| 0 <= z < f0.len() && f0[z] == g0;
                assert(has_entry_id(e0, f0[z].entry_id));
                let o = choose|o: int| 0 <= o < e0.len() && #[trigger] e0[o].id == id;
                assert(e0[o].id < base);
                if w >= kept.len() {
                    assert(e1[w] == fresh[w - kept.len()]);
                    assert(false);
                }
                assert(e1[w] == kept[w]);
                assert(e0[src[w]].id == id);
                lemma_unique_id(e0, src[w]);
                assert(updated_file(e0, scan, f0[z]) is Some);
                let g = updated_file(e0, scan, f0[z]).unwrap();
                assert(kf.contains(g));
                let y = choose|y: int| 0 <= y < kf.len() && kf[y] == g;
                assert(f1[y] == g);
                g
            };
            assert(f1.contains(g));
            assert(g.entry_id == id && g.path@ == p);
            lemma_filter_sub(f1, |f: File| f.entry_id == id);
            let z = choose|z: int| 0 <= z < f1.len() && f1[z] == g;
            assert(olds1.contains(g)) by {
                broadcast use vstd::seq_lib::group_filter_ensures;
                assert((|f: File| f.entry_id == id)(f1[z]));
            }
            let v = choose|v: int| 0 <= v < olds1.len() && olds1[v] == g;
            lemma_first_match(olds1, file_row_at(p));
            assert(file_row_at(p)(olds1[v]));
        }
        lemma_no_positions(d, olds1, d.len() as int);
    }
    assert forall|i: int| 0 <= i < s1.link_rows().len() implies link_survives(e1, scan)(#[trigger] s1.link_rows()[i]) by {
        let l = s1.link_rows()[i];
        let o = choose|o: int| 0 <= o < e1.len() && #[trigger] e1[o].id == l.entry_id;
        lemma_unique_id(e1, o);
        assert(updated_entry(e1[o], scan) == Some(e1[o]));
    }
}


/// Updating a second time with the same scan makes no further writes,
/// leaves the rows as the first update left them, and ends as the first did.
pub proof fn law_update_idempotent(
    s0: Store,
    s1: Store,
    s2: Store,
    scan: Seq<(i32, DirEntry)>,
    r1: Result<(), crate::store::StoreError>,
    r2: Result<(), crate::store::StoreError>,
)
    requires
        s0.wf(),
        s1.wf(),
        update_result(s0, s1, scan, r1),
        update_result(s1, s2, scan, r2),
    ensures
        r2 is Ok <==> r1 is Ok,
        s2.journal() == s1.journal(),
        s2.entry_rows() == s1.entry_rows(),
        s2.file_rows() == s1.file_rows(),
        s2.link_rows() == s1.link_rows(),
        s2.label_rows() == s1.label_rows(),
        s2.next_id() == s1.next_id(),
{
    if r1 is Err {
        assert(s1 == s0);
        assert(r2 is Err);
        return;
    }
    let e1 = s1.entry_rows();
    let f1 = s1.file_rows();
    lemma_settled_after_update(s0, s1, scan, r1);
    lemma_entries_settled(e1, scan);
    lemma_no_fresh_aggs(e1, scan, scan.len() as int);
    lemma_files_settled(e1, scan, f1);
    let base = s1.next_id() as int;
    assert(fresh_entries(e1, scan, base) =~= Seq::<crate::models::Entry>::empty());
    assert(reconciled_entries(e1, scan, base) =~= e1);
    lemma_no_sources(e1, scan, f1, e1.len() as int);
    assert(fresh_files(e1, scan, f1, base) =~= Seq::<File>::empty());
    lemma_filter_all(s1.link_rows(), link_survives(e1, scan));
    assert(s2.file_rows() =~= f1);
    assert(s2.journal() =~= s1.journal());
}

} // verus!
