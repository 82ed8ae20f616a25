//! The orders of the view: by name, path or size, ascending or descending,
//! and the sort that puts a list of entry positions in one of them.
use vstd::prelude::*;

use crate::lens::{SortColumn, SortOrder};
use crate::models::Entry;
use crate::text::{bytes_le, lemma_bytes_le_total, lemma_bytes_le_trans, str_le, text_key};

verus! {

/// `a` comes no later than `b` by column `col`. The date column has no
/// order of its own and orders by name.
pub open spec fn key_le(a: Entry, b: Entry, col: SortColumn) -> bool {
    match col {
        SortColumn::Path => bytes_le(text_key(a.path@), text_key(b.path@)),
        SortColumn::Size => a.size <= b.size,
        _ => bytes_le(text_key(a.name@), text_key(b.name@)),
    }
}

/// `a` may come before `b` in a view sorted by `col` in `order`.
pub open spec fn view_le(a: Entry, b: Entry, col: SortColumn, order: SortOrder) -> bool {
    match order {
        SortOrder::Asc => key_le(a, b, col),
        SortOrder::Desc => key_le(b, a, col),
    }
}

/// The positions `ix` into `entries` are in the order of `col` and `order`.
pub open spec fn sorted_view(ix: Seq<usize>, entries: Seq<Entry>, col: SortColumn, order: SortOrder) -> bool {
    forall|i: int, j: int|
        0 <= i < j < ix.len() ==> view_le(entries[ix[i] as int], entries[ix[j] as int], col, order)
}

/// Every position of `ix` is one of `entries`.
pub open spec fn in_bounds(ix: Seq<usize>, n: int) -> bool {
    forall|i: int| 0 <= i < ix.len() ==> #[trigger] ix[i] < n
}

pub proof fn lemma_view_le_total(a: Entry, b: Entry, col: SortColumn, order: SortOrder)
    ensures
        view_le(a, b, col, order) || view_le(b, a, col, order),
{
    lemma_bytes_le_total(text_key(a.name@), text_key(b.name@));
    lemma_bytes_le_total(text_key(a.path@), text_key(b.path@));
}

pub proof fn lemma_view_le_trans(a: Entry, b: Entry, c: Entry, col: SortColumn, order: SortOrder)
    requires
        view_le(a, b, col, order),
        view_le(b, c, col, order),
    ensures
        view_le(a, c, col, order),
{
    match order {
        SortOrder::Asc => {
            if col != SortColumn::Size && col != SortColumn::Path {
                lemma_bytes_le_trans(text_key(a.name@), text_key(b.name@), text_key(c.name@));
            } else if col == SortColumn::Path {
                lemma_bytes_le_trans(text_key(a.path@), text_key(b.path@), text_key(c.path@));
            }
        },
        SortOrder::Desc => {
            if col != SortColumn::Size && col != SortColumn::Path {
                lemma_bytes_le_trans(text_key(c.name@), text_key(b.name@), text_key(a.name@));
            } else if col == SortColumn::Path {
                lemma_bytes_le_trans(text_key(c.path@), text_key(b.path@), text_key(a.path@));
            }
        },
    }
}

/// Compares two entries by `col` in `order`.
pub fn entry_le(a: &Entry, b: &Entry, col: SortColumn, order: SortOrder) -> (r: bool)
    ensures
        r == view_le(*a, *b, col, order),
{
    let (x, y) = match order {
        SortOrder::Asc => (a, b),
        SortOrder::Desc => (b, a),
    };
    match col {
        SortColumn::Path => str_le(x.path.as_str(), y.path.as_str()),
        SortColumn::Size => x.size <= y.size,
        _ => str_le(x.name.as_str(), y.name.as_str()),
    }
}

/// Inserting an element anywhere adds it to the multiset of a sequence.
pub proof fn lemma_insert_multiset<T>(s: Seq<T>, pos: int, x: T)
    requires
        0 <= pos <= s.len(),
    ensures
        s.insert(pos, x).to_multiset() =~= s.to_multiset().insert(x),
{
    broadcast use vstd::seq_lib::group_to_multiset_ensures;

    let t = s.insert(pos, x);
    s.insert_ensures(pos, x);
    t.to_multiset_ensures();
    assert(t.remove(pos) =~= s);
    assert(t.contains(x)) by {
        assert(t[pos] == x);
    }
    assert(t.to_multiset().count(x) > 0);
}

/// Sorts positions into `entries` by `col` in `order`, keeping every
/// position as often as it occurs.
pub fn sort_view(ix: &mut Vec<usize>, entries: &Vec<Entry>, col: SortColumn, order: SortOrder)
    requires
        in_bounds(old(ix)@, entries@.len() as int),
    ensures
        final(ix)@.to_multiset() == old(ix)@.to_multiset(),
        sorted_view(final(ix)@, entries@, col, order),
        in_bounds(final(ix)@, entries@.len() as int),
{
    broadcast use vstd::seq_lib::group_to_multiset_ensures;

    let ghost input = ix@;
    let mut out: Vec<usize> = Vec::with_capacity(ix.len());
    let mut k: usize = 0;
    while k < ix.len()
        invariant
            k <= ix@.len(),
            ix@ == input,
            in_bounds(input, entries@.len() as int),
            in_bounds(out@, entries@.len() as int),
            sorted_view(out@, entries@, col, order),
            out@.to_multiset() == input.take(k as int).to_multiset(),
        decreases ix@.len() - k,
    {
        let x = ix[k];
        let ex = &entries[x];
        let mut lo: usize = 0;
        let mut hi: usize = out.len();
        while lo < hi
            invariant
                lo <= hi <= out@.len(),
                x < entries@.len(),
                *ex == entries@[x as int],
                in_bounds(out@, entries@.len() as int),
                sorted_view(out@, entries@, col, order),
                forall|q: int| 0 <= q < lo ==> view_le(entries@[#[trigger] out@[q] as int], entries@[x as int], col, order),
                forall|q: int| hi <= q < out@.len() ==> !view_le(entries@[#[trigger] out@[q] as int], entries@[x as int], col, order),
            decreases hi - lo,
        {
            let mid = lo + (hi - lo) / 2;
            if entry_le(&entries[out[mid]], ex, col, order) {
                proof {
                    assert forall|q: int| 0 <= q <= mid implies view_le(entries@[#[trigger] out@[q] as int], entries@[x as int], col, order) by {
                        if q < mid {
                            lemma_view_le_trans(entries@[out@[q] as int], entries@[out@[mid as int] as int], entries@[x as int], col, order);
                        }
                    }
                }
                lo = mid + 1;
            } else {
                proof {
                    assert forall|q: int| mid <= q < out@.len() implies !view_le(entries@[#[trigger] out@[q] as int], entries@[x as int], col, order) by {
                        if q > mid && view_le(entries@[out@[q] as int], entries@[x as int], col, order) {
                            lemma_view_le_trans(entries@[out@[mid as int] as int], entries@[out@[q] as int], entries@[x as int], col, order);
                        }
                    }
                }
                hi = mid;
            }
        }
        let ghost before = out@;
        out.insert(lo, x);
        proof {
            lemma_insert_multiset(before, lo as int, x);
            assert(input.take(k + 1) =~= input.take(k as int).push(x));
            input.take(k as int).to_multiset_ensures();
            assert(input.take(k as int).push(x).to_multiset() =~= input.take(k as int).to_multiset().insert(x));
            assert(out@ == before.insert(lo as int, x));
            assert(out@.to_multiset() == input.take(k + 1).to_multiset());
            before.insert_ensures(lo as int, x);
            assert forall|i: int, j: int| 0 <= i < j < out@.len() implies view_le(entries@[out@[i] as int], entries@[out@[j] as int], col, order) by {
                let ex_ = entries@[x as int];
                if i < lo && j == lo {
                } else if i == lo && j > lo {
                    let e2 = entries@[before[j - 1] as int];
                    lemma_view_le_total(e2, ex_, col, order);
                } else if i < lo && j > lo {
                    assert(out@[j] == before[j - 1]);
                } else if j < lo {
                } else {
                    assert(out@[i] == before[i - 1] && out@[j] == before[j - 1]);
                }
            }
        }
        k = k + 1;
    }
    assert(input.take(input.len() as int) =~= input);
    *ix = out;
}

} // verus!
