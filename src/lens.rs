//! The view over the catalog: the entries that the search text and the
//! label filters let through, in the chosen order.
use std::collections::HashSet;
use vstd::prelude::*;
use vstd::string::StringExecFns;

use crate::models::{DirEntry, Entry, File, LabelAutoFilter, Location};
use crate::order::{in_bounds, sort_view, sorted_view};
use crate::search::{ci_regex_matches, ci_regex_valid, create_match_regex, query_pattern, Matcher};
use crate::store::{add_links, labels_of, pairs, pairs_valid, update_result, Store, StoreError};

verus! {

/// How a label stands in the current filter.
#[derive(Clone, Copy, Debug, PartialEq, Eq, Structural)]
pub enum LabelState {
    Unset,
    Exclude,
    Include,
}

/// A label together with how it stands in the current filter.
#[derive(Clone, Debug)]
pub struct Label {
    pub id: i32,
    pub name: String,
    pub state: LabelState,
}

/// The column and direction that the view is sorted by.
#[derive(Clone, Copy, Debug, PartialEq, Eq, Structural)]
pub struct Sort {
    pub column: SortColumn,
    pub order: SortOrder,
}

impl Sort {
    pub fn new(column: SortColumn, order: SortOrder) -> (r: Self)
        ensures
            r.column == column,
            r.order == order,
    {
        Sort { column, order }
    }
}

#[derive(Clone, Copy, Debug, PartialEq, Eq, Structural)]
pub enum SortColumn {
    Name,
    Path,
    Date,
    Size,
}

#[derive(Clone, Copy, Debug, PartialEq, Eq, Structural)]
pub enum SortOrder {
    Asc,
    Desc,
}

pub const KB: u64 = 1000;
pub const MB: u64 = KB * KB;
pub const GB: u64 = KB * KB * KB;

pub open spec fn digit_char(d: nat) -> char {
    if d == 0 { '0' } else if d == 1 { '1' } else if d == 2 { '2' } else if d == 3 { '3' }
    else if d == 4 { '4' } else if d == 5 { '5' } else if d == 6 { '6' } else if d == 7 { '7' }
    else if d == 8 { '8' } else { '9' }
}

/// The decimal digits of `n`, without leading zeros.
pub open spec fn decimal(n: nat) -> Seq<char>
    decreases n,
{
    if n < 10 {
        seq![digit_char(n)]
    } else {
        decimal(n / 10) + seq![digit_char(n % 10)]
    }
}

/// A size as a person reads it: whole gigabytes, megabytes or kilobytes
/// once it exceeds one of them, bytes otherwise.
pub open spec fn pretty(size: nat) -> Seq<char> {
    if size > GB {
        decimal(size / GB as nat) + seq![' ', 'G', 'B']
    } else if size > MB {
        decimal(size / MB as nat) + seq![' ', 'M', 'B']
    } else if size > KB {
        decimal(size / KB as nat) + seq![' ', 'K', 'B']
    } else {
        decimal(size) + seq![' ', 'B']
    }
}

fn digit_str(d: u64) -> (r: &'static str)
    requires
        d < 10,
    ensures
        r@ == seq![digit_char(d as nat)],
{
    proof {
        reveal_strlit("0");
        reveal_strlit("1");
        reveal_strlit("2");
        reveal_strlit("3");
        reveal_strlit("4");
        reveal_strlit("5");
        reveal_strlit("6");
        reveal_strlit("7");
        reveal_strlit("8");
        reveal_strlit("9");
    }
    let r = match d {
        0 => "0",
        1 => "1",
        2 => "2",
        3 => "3",
        4 => "4",
        5 => "5",
        6 => "6",
        7 => "7",
        8 => "8",
        _ => "9",
    };
    assert(r@ =~= seq![digit_char(d as nat)]);
    r
}

/// Appends the decimal digits of `n`.
fn push_decimal(s: &mut String, n: u64)
    ensures
        final(s)@ == old(s)@ + decimal(n as nat),
    decreases n,
{
    if n >= 10 {
        push_decimal(s, n / 10);
    }
    s.append(digit_str(n % 10));
    assert(final(s)@ =~= old(s)@ + decimal(n as nat));
}

/// Formats a size in bytes for display.
pub fn pretty_size(size: u64) -> (r: String)
    ensures
        r@ == pretty(size as nat),
{
    let mut r = String::new();
    if size > GB {
        push_decimal(&mut r, size / GB);
        proof { reveal_strlit(" GB"); }
        r.append(" GB");
    } else if size > MB {
        push_decimal(&mut r, size / MB);
        proof { reveal_strlit(" MB"); }
        r.append(" MB");
    } else if size > KB {
        push_decimal(&mut r, size / KB);
        proof { reveal_strlit(" KB"); }
        r.append(" KB");
    } else {
        push_decimal(&mut r, size);
        proof { reveal_strlit(" B"); }
        r.append(" B");
    }
    assert(r@ =~= pretty(size as nat));
    r
}


/// Why a view operation was refused.
#[derive(Clone, Copy, Debug, PartialEq, Eq, Structural)]
pub enum LensError {
    /// The destination of a rename already exists.
    DestinationExists,
    /// The path to operate on does not exist.
    SourceMissing,
    /// The path to move into a directory of its own is not a file.
    NotAFile,
    /// The pattern is not a valid regular expression.
    InvalidPattern,
    /// The catalog refused the change.
    Catalog(StoreError),
}

/// What a path on disk is.
#[derive(Clone, Copy, Debug, PartialEq, Eq, Structural)]
pub enum PathKind {
    File,
    Dir,
}

/// Checks a rename before the disk is touched: the destination must not
/// exist and the source must. Returns what the source is.
pub fn check_rename(destination_exists: bool, source: Option<PathKind>) -> (r: Result<PathKind, LensError>)
    ensures
        destination_exists ==> r == Err::<PathKind, LensError>(LensError::DestinationExists),
        !destination_exists && source is None ==> r == Err::<PathKind, LensError>(LensError::SourceMissing),
        !destination_exists && source is Some ==> r == Ok::<PathKind, LensError>(source.unwrap()),
{
    if destination_exists {
        return Err(LensError::DestinationExists);
    }
    match source {
        Some(k) => Ok(k),
        None => Err(LensError::SourceMissing),
    }
}

/// Checks that a file entry can be moved into a directory of its own: its
/// path must exist and be a file.
pub fn check_move_to_dir(source: Option<PathKind>) -> (r: Result<(), LensError>)
    ensures
        source is None ==> r == Err::<(), LensError>(LensError::SourceMissing),
        source == Some(PathKind::Dir) ==> r == Err::<(), LensError>(LensError::NotAFile),
        source == Some(PathKind::File) ==> r is Ok,
{
    match source {
        Some(PathKind::File) => Ok(()),
        Some(PathKind::Dir) => Err(LensError::NotAFile),
        None => Err(LensError::SourceMissing),
    }
}

/// The label gate of the view: an entry with an excluded label is hidden;
/// otherwise one with an included label is shown; otherwise it is shown only
/// when nothing is included. With no filter at all everything is shown.
pub open spec fn label_pass(inc: Set<i32>, exc: Set<i32>, labels: Set<i32>) -> bool {
    if inc.is_empty() && exc.is_empty() {
        true
    } else if exists|l: i32| exc.contains(l) && labels.contains(l) {
        false
    } else if exists|l: i32| inc.contains(l) && labels.contains(l) {
        true
    } else {
        inc.is_empty()
    }
}

/// The positions among the first `n` entries that the view shows, given
/// which names match the search.
pub open spec fn shown_upto(
    matched: Seq<bool>,
    inc: Set<i32>,
    exc: Set<i32>,
    store: Store,
    n: int,
) -> Seq<usize>
    decreases n,
{
    if n <= 0 {
        Seq::empty()
    } else if matched[n - 1] && label_pass(inc, exc, labels_of(store.link_rows(), store.entry_rows()[n - 1].id)) {
        shown_upto(matched, inc, exc, store, n - 1).push((n - 1) as usize)
    } else {
        shown_upto(matched, inc, exc, store, n - 1)
    }
}

/// Whether the search pattern, if any, matches `name`.
pub open spec fn name_matches(pattern: Option<Seq<char>>, name: Seq<char>) -> bool {
    match pattern {
        Some(p) => ci_regex_matches(p, name),
        None => true,
    }
}

/// Which entry names the search pattern matches.
pub open spec fn matches_of(pattern: Option<Seq<char>>, entries: Seq<Entry>) -> Seq<bool> {
    Seq::new(entries.len(), |i: int| name_matches(pattern, entries[i].name@))
}

/// The state a label is shown with.
pub open spec fn state_of(inc: Set<i32>, exc: Set<i32>, id: i32) -> LabelState {
    if inc.contains(id) {
        LabelState::Include
    } else if exc.contains(id) {
        LabelState::Exclude
    } else {
        LabelState::Unset
    }
}

/// The filtered, sorted view over a catalog.
pub struct Lens {
    source: Store,
    ix_list: Vec<usize>,
    include_labels: HashSet<i32>,
    exclude_labels: HashSet<i32>,
    label_states: Vec<Label>,
    search_text: String,
    matcher: Option<Matcher>,
    sort: Sort,
}

impl Lens {
    pub closed spec fn store(&self) -> Store {
        self.source
    }

    /// The positions in the entry rows that the view shows, in order.
    pub closed spec fn view(&self) -> Seq<usize> {
        self.ix_list@
    }

    pub closed spec fn included(&self) -> Set<i32> {
        self.include_labels@
    }

    pub closed spec fn excluded(&self) -> Set<i32> {
        self.exclude_labels@
    }

    pub closed spec fn sort_spec(&self) -> Sort {
        self.sort
    }

    pub closed spec fn search(&self) -> Seq<char> {
        self.search_text@
    }

    /// The pattern that names are matched against; none matches everything.
    pub closed spec fn pattern(&self) -> Option<Seq<char>> {
        match self.matcher {
            Some(m) => Some(m.source()),
            None => None,
        }
    }

    pub closed spec fn states(&self) -> Seq<Label> {
        self.label_states@
    }

    pub closed spec fn wf(&self) -> bool {
        &&& self.source.wf()
        &&& in_bounds(self.ix_list@, self.source.entry_rows().len() as int)
    }

    /// What a well-formed view holds: a well-formed catalog, and positions
    /// that are all rows of it.
    pub proof fn lemma_wf(&self)
        requires
            self.wf(),
        ensures
            self.store().wf(),
            in_bounds(self.view(), self.store().entry_rows().len() as int),
    {
    }

    /// The view shows exactly the entries that pass the search and the label
    /// filter, in the order of the sort.
    pub open spec fn view_current(&self) -> bool {
        let m = matches_of(self.pattern(), self.store().entry_rows());
        let n = self.store().entry_rows().len() as int;
        &&& self.view().to_multiset() == shown_upto(m, self.included(), self.excluded(), self.store(), n).to_multiset()
        &&& sorted_view(self.view(), self.store().entry_rows(), self.sort_spec().column, self.sort_spec().order)
    }

    /// The label states list every label row with its state.
    pub open spec fn states_current(&self) -> bool {
        let labels = self.store().label_rows();
        &&& self.states().len() == labels.len()
        &&& forall|i: int| 0 <= i < labels.len() ==> {
            &&& (#[trigger] self.states()[i]).id == labels[i].id
            &&& self.states()[i].name@ == labels[i].name@
            &&& self.states()[i].state == state_of(self.included(), self.excluded(), labels[i].id)
        }
    }

    /// A view over an empty catalog for the backend at `db_path`, sorted by
    /// name, ascending, with no search and no label filter.
    pub fn new(db_path: &str) -> (r: Self)
        ensures
            r.wf(),
            r.view_current(),
            r.states_current(),
            r.store().url() == db_path@,
            r.store().entry_rows().len() == 0,
            r.store().label_rows().len() == 0,
            r.store().link_rows().len() == 0,
            r.store().journal().len() == 0,
            r.sort_spec() == (Sort { column: SortColumn::Name, order: SortOrder::Asc }),
            r.pattern() is None,
            r.search().len() == 0,
            r.included().is_empty(),
            r.excluded().is_empty(),
    {
        let mut lens = Lens {
            source: Store::init(db_path),
            ix_list: Vec::new(),
            include_labels: HashSet::new(),
            exclude_labels: HashSet::new(),
            label_states: Vec::new(),
            search_text: String::new(),
            matcher: None,
            sort: Sort::new(SortColumn::Name, SortOrder::Asc),
        };
        lens.update_ix_list();
        lens.update_label_states();
        lens
    }

    /// The label gate of the view for entry `entry_id`.
    fn label_filter(&self, entry_id: i32) -> (r: bool)
        requires
            self.wf(),
        ensures
            r == label_pass(self.included(), self.excluded(), labels_of(self.store().link_rows(), entry_id)),
    {
        let ghost labels = labels_of(self.source.link_rows(), entry_id);
        let ghost inc = self.include_labels@;
        let ghost exc = self.exclude_labels@;
        if self.exclude_labels.is_empty() && self.include_labels.is_empty() {
            return true;
        }
        proof {
            self.source.lemma_keys();
        }
        // Every label an entry carries is a label row, so the rows are the
        // labels to look at.
        let rows = self.source.get_all_labels();
        let ghost links = self.source.link_rows();
        assert forall|l: i32| #[trigger] labels.contains(l) implies crate::store::has_label_id(rows@, l) by {
            let k = choose|k: int| 0 <= k < links.len() && links[k] == (crate::models::Entry2Label { entry_id, label_id: l });
            assert(crate::store::has_label_id(rows@, links[k].label_id));
        }
        let mut i: usize = 0;
        while i < rows.len()
            invariant
                i <= rows@.len(),
                rows@ == self.source.label_rows(),
                exc == self.exclude_labels@,
                self.source.wf(),
                labels == labels_of(self.source.link_rows(), entry_id),
                forall|j: int| 0 <= j < i ==> !(exc.contains(#[trigger] rows@[j].id) && labels.contains(rows@[j].id)),
            decreases rows@.len() - i,
        {
            let id = rows[i].id;
            if self.exclude_labels.contains(&id) && self.source.has_label(entry_id, id) {
                assert(exc.contains(id) && labels.contains(id));
                return false;
            }
            i = i + 1;
        }
        assert(!exists|l: i32| exc.contains(l) && labels.contains(l)) by {
            assert forall|l: i32| exc.contains(l) implies !labels.contains(l) by {
                if labels.contains(l) {
                    let w = choose|w: int| 0 <= w < rows@.len() && #[trigger] rows@[w].id == l;
                }
            }
        }
        let mut i: usize = 0;
        while i < rows.len()
            invariant
                i <= rows@.len(),
                rows@ == self.source.label_rows(),
                inc == self.include_labels@,
                exc == self.exclude_labels@,
                self.source.wf(),
                labels == labels_of(self.source.link_rows(), entry_id),
                !exists|l: i32| exc.contains(l) && labels.contains(l),
                !(inc.is_empty() && exc.is_empty()),
                forall|j: int| 0 <= j < i ==> !(inc.contains(#[trigger] rows@[j].id) && labels.contains(rows@[j].id)),
            decreases rows@.len() - i,
        {
            let id = rows[i].id;
            if self.include_labels.contains(&id) && self.source.has_label(entry_id, id) {
                assert(inc.contains(id) && labels.contains(id));
                return true;
            }
            i = i + 1;
        }
        assert(!exists|l: i32| inc.contains(l) && labels.contains(l)) by {
            assert forall|l: i32| inc.contains(l) implies !labels.contains(l) by {
                if labels.contains(l) {
                    let w = choose|w: int| 0 <= w < rows@.len() && #[trigger] rows@[w].id == l;
                }
            }
        }
        self.include_labels.is_empty()
    }

    /// Rebuilds the view from which names the search matches, given as
    /// `matched`, one flag per entry row: the entries whose flag is set and
    /// that pass the label filter, in the order of the sort.
    pub fn update_ix_list_with(&mut self, matched: &Vec<bool>)
        requires
            old(self).wf(),
            matched@.len() == old(self).store().entry_rows().len(),
        ensures
            final(self).wf(),
            final(self).view().to_multiset() == shown_upto(
                matched@,
                old(self).included(),
                old(self).excluded(),
                old(self).store(),
                matched@.len() as int,
            ).to_multiset(),
            sorted_view(final(self).view(), final(self).store().entry_rows(), final(self).sort_spec().column, final(self).sort_spec().order),
            final(self).store() == old(self).store(),
            final(self).included() == old(self).included(),
            final(self).excluded() == old(self).excluded(),
            final(self).sort_spec() == old(self).sort_spec(),
            final(self).pattern() == old(self).pattern(),
            final(self).search() == old(self).search(),
            final(self).states() == old(self).states(),
    {
        let mut ix: Vec<usize> = Vec::new();
        let n = self.source.get_all_entries().len();
        let mut i: usize = 0;
        while i < n
            invariant
                i <= n,
                n == self.source.entry_rows().len(),
                matched@.len() == n,
                self.wf(),
                *self == *old(self),
                ix@ == shown_upto(matched@, self.included(), self.excluded(), self.source, i as int),
                in_bounds(ix@, n as int),
            decreases n - i,
        {
            let id = self.source.get_all_entries()[i].id;
            if matched[i] && self.label_filter(id) {
                ix.push(i);
            }
            i = i + 1;
        }
        sort_view(&mut ix, self.source.get_all_entries(), self.sort.column, self.sort.order);
        self.ix_list = ix;
    }

    /// Rebuilds the view after a change of data, search or filter.
    pub fn update_ix_list(&mut self)
        requires
            old(self).wf(),
        ensures
            final(self).wf(),
            final(self).view_current(),
            final(self).store() == old(self).store(),
            final(self).included() == old(self).included(),
            final(self).excluded() == old(self).excluded(),
            final(self).sort_spec() == old(self).sort_spec(),
            final(self).pattern() == old(self).pattern(),
            final(self).search() == old(self).search(),
            final(self).states() == old(self).states(),
    {
        let ghost want = matches_of(self.pattern(), self.source.entry_rows());
        let mut matched: Vec<bool> = Vec::new();
        let n = self.source.get_all_entries().len();
        let mut i: usize = 0;
        while i < n
            invariant
                i <= n,
                n == self.source.entry_rows().len(),
                want == matches_of(self.pattern(), self.source.entry_rows()),
                matched@ == want.take(i as int),
            decreases n - i,
        {
            let e = &self.source.get_all_entries()[i];
            let m = match &self.matcher {
                Some(m) => m.is_match(e.name.as_str()),
                None => true,
            };
            matched.push(m);
            assert(matched@ =~= want.take(i + 1));
            i = i + 1;
        }
        assert(want.take(n as int) =~= want);
        self.update_ix_list_with(&matched);
    }

    /// Sorts the view by `column` in `order`.
    pub fn order_by(&mut self, column: SortColumn, order: SortOrder)
        requires
            old(self).wf(),
        ensures
            final(self).wf(),
            final(self).sort_spec() == (Sort { column, order }),
            final(self).view().to_multiset() == old(self).view().to_multiset(),
            sorted_view(final(self).view(), final(self).store().entry_rows(), column, order),
            final(self).store() == old(self).store(),
            final(self).included() == old(self).included(),
            final(self).excluded() == old(self).excluded(),
            final(self).pattern() == old(self).pattern(),
            final(self).search() == old(self).search(),
            final(self).states() == old(self).states(),
    {
        self.sort = Sort::new(column, order);
        self.sort();
    }

    /// Puts the view in the order of the current sort.
    pub fn sort(&mut self)
        requires
            old(self).wf(),
        ensures
            final(self).wf(),
            final(self).view().to_multiset() == old(self).view().to_multiset(),
            sorted_view(final(self).view(), final(self).store().entry_rows(), final(self).sort_spec().column, final(self).sort_spec().order),
            final(self).store() == old(self).store(),
            final(self).included() == old(self).included(),
            final(self).excluded() == old(self).excluded(),
            final(self).sort_spec() == old(self).sort_spec(),
            final(self).pattern() == old(self).pattern(),
            final(self).search() == old(self).search(),
            final(self).states() == old(self).states(),
    {
        let mut ix: Vec<usize> = Vec::new();
        std::mem::swap(&mut ix, &mut self.ix_list);
        sort_view(&mut ix, self.source.get_all_entries(), self.sort.column, self.sort.order);
        self.ix_list = ix;
    }
}

/// Converts ids given unsigned into the catalog's signed ids.
fn to_ids(v: Vec<u32>) -> (r: Vec<i32>)
    ensures
        r@ == v@.map_values(|x: u32| x as i32),
{
    let mut out: Vec<i32> = Vec::new();
    let mut i: usize = 0;
    while i < v.len()
        invariant
            i <= v@.len(),
            out@ == v@.take(i as int).map_values(|x: u32| x as i32),
        decreases v@.len() - i,
    {
        out.push(#[verifier::truncate] (v[i] as i32));
        assert(out@ =~= v@.take(i + 1).map_values(|x: u32| x as i32));
        i = i + 1;
    }
    assert(v@.take(v@.len() as int) =~= v@);
    out
}

impl Lens {
    /// Rebuilds the label states from the label rows and the filter.
    pub fn update_label_states(&mut self)
        requires
            old(self).wf(),
        ensures
            final(self).wf(),
            final(self).states_current(),
            final(self).store() == old(self).store(),
            final(self).view() == old(self).view(),
            final(self).included() == old(self).included(),
            final(self).excluded() == old(self).excluded(),
            final(self).sort_spec() == old(self).sort_spec(),
            final(self).pattern() == old(self).pattern(),
            final(self).search() == old(self).search(),
    {
        let mut states: Vec<Label> = Vec::new();
        let labels = self.source.get_all_labels();
        let mut i: usize = 0;
        while i < labels.len()
            invariant
                i <= labels@.len(),
                labels@ == self.source.label_rows(),
                states@.len() == i,
                forall|j: int| 0 <= j < i ==> {
                    &&& (#[trigger] states@[j]).id == labels@[j].id
                    &&& states@[j].name@ == labels@[j].name@
                    &&& states@[j].state == state_of(self.included(), self.excluded(), labels@[j].id)
                },
            decreases labels@.len() - i,
        {
            let lbl = &labels[i];
            let state = if self.include_labels.contains(&lbl.id) {
                LabelState::Include
            } else if self.exclude_labels.contains(&lbl.id) {
                LabelState::Exclude
            } else {
                LabelState::Unset
            };
            states.push(Label { id: lbl.id, name: lbl.name.clone(), state });
            i = i + 1;
        }
        self.label_states = states;
    }

    /// The labels with their states.
    pub fn get_labels(&self) -> (r: &Vec<Label>)
        ensures
            r@ == self.states(),
    {
        &self.label_states
    }

    /// Replaces the search text: `None`, changing nothing, where it equals
    /// the current one or its pattern does not compile; otherwise the view is
    /// rebuilt for the new text and its length returned.
    pub fn update_search_text(&mut self, new_string: &str) -> (r: Option<usize>)
        requires
            old(self).wf(),
        ensures
            final(self).wf(),
            r is Some <==> new_string@ != old(self).search() && ci_regex_valid(query_pattern(new_string@)),
            r is None ==> *final(self) == *old(self),
            r is Some ==> {
                &&& final(self).search() == new_string@
                &&& final(self).pattern() == Some(query_pattern(new_string@))
                &&& final(self).view_current()
                &&& r.unwrap() == final(self).view().len()
                &&& final(self).store() == old(self).store()
                &&& final(self).included() == old(self).included()
                &&& final(self).excluded() == old(self).excluded()
                &&& final(self).sort_spec() == old(self).sort_spec()
                &&& final(self).states() == old(self).states()
            },
    {
        let candidate = new_string.to_owned();
        if candidate == self.search_text {
            return None;
        }
        match create_match_regex(new_string) {
            Some(m) => {
                self.matcher = Some(m);
                self.search_text = candidate;
                self.update_ix_list();
                Some(self.ix_list.len())
            },
            None => None,
        }
    }

    /// How many entries the view shows.
    pub fn get_dir_count(&self) -> (r: usize)
        ensures
            r == self.view().len(),
    {
        self.ix_list.len()
    }

    /// The position in the entry rows of the `ix`-th entry of the view.
    pub fn convert_ix(&self, ix: usize) -> (r: Option<usize>)
        ensures
            ix < self.view().len() ==> r == Some(self.view()[ix as int]),
            ix >= self.view().len() ==> r is None,
    {
        if ix < self.ix_list.len() {
            Some(self.ix_list[ix])
        } else {
            None
        }
    }

    /// The `ix`-th entry of the view.
    pub fn get_dir_entry(&self, ix: usize) -> (r: Option<&Entry>)
        requires
            self.wf(),
        ensures
            ix < self.view().len() ==> r == Some(&self.store().entry_rows()[self.view()[ix as int] as int]),
            ix >= self.view().len() ==> r is None,
    {
        match self.convert_ix(ix) {
            Some(cix) => {
                assert(self.ix_list@[ix as int] < self.source.entry_rows().len());
                Some(&self.source.get_all_entries()[cix])
            },
            None => None,
        }
    }

    /// The entry with id `entry_id`, wherever the view stands.
    pub fn get_dir_entry_by_id(&self, entry_id: i32) -> (r: Option<&Entry>)
        requires
            self.wf(),
        ensures
            match r {
                Some(e) => e.id == entry_id && self.store().entry_rows().contains(*e),
                None => forall|i: int| 0 <= i < self.store().entry_rows().len() ==> #[trigger] self.store().entry_rows()[i].id != entry_id,
            },
    {
        proof {
            self.source.lemma_keys();
        }
        let entries = self.source.get_all_entries();
        match crate::store::index_of_id(entries, entry_id) {
            Some(i) => {
                assert(self.store().entry_rows()[i as int] == entries@[i as int]);
                Some(&entries[i])
            },
            None => None,
        }
    }

    /// The files of the `ix`-th entry of the view.
    pub fn get_dir_files(&self, ix: usize) -> (r: Option<&Vec<File>>)
        requires
            self.wf(),
        ensures
            ix >= self.view().len() ==> r is None,
            ix < self.view().len() ==> (r is Some && r.unwrap()@ == crate::store::files_of(
                self.store().file_rows(),
                self.store().entry_rows()[self.view()[ix as int] as int].id,
            )),
    {
        match self.get_dir_entry(ix) {
            Some(entry) => {
                let ghost i = self.ix_list@[ix as int] as int;
                assert(crate::store::has_entry_id(self.source.entry_rows(), self.source.entry_rows()[i].id));
                self.source.get_files(entry)
            },
            None => None,
        }
    }

    /// How many files the `ix`-th entry of the view has.
    pub fn get_file_count(&self, ix: usize) -> (r: Option<usize>)
        requires
            self.wf(),
        ensures
            ix >= self.view().len() ==> r is None,
            ix < self.view().len() ==> r == Some(crate::store::files_of(
                self.store().file_rows(),
                self.store().entry_rows()[self.view()[ix as int] as int].id,
            ).len() as usize),
    {
        match self.get_dir_files(ix) {
            Some(files) => Some(files.len()),
            None => None,
        }
    }

    /// The `file_ix`-th file of the `dir_ix`-th entry of the view.
    pub fn get_file_entry(&self, dir_ix: usize, file_ix: usize) -> (r: Option<&File>)
        requires
            self.wf(),
        ensures
            ({
                let ok = dir_ix < self.view().len();
                let files = crate::store::files_of(
                    self.store().file_rows(),
                    self.store().entry_rows()[self.view()[dir_ix as int] as int].id,
                );
                &&& ok && file_ix < files.len() ==> r == Some(&files[file_ix as int])
                &&& !(ok && file_ix < files.len()) ==> r is None
            }),
    {
        match self.get_dir_files(dir_ix) {
            Some(files) => {
                if file_ix < files.len() {
                    Some(&files[file_ix])
                } else {
                    None
                }
            },
            None => None,
        }
    }
}

impl Lens {
    /// The catalog under the view.
    pub fn source(&self) -> (r: &Store)
        ensures
            *r == self.store(),
    {
        &self.source
    }

    /// Reconciles the catalog with a scan, then rebuilds the view.
    pub fn update_data(&mut self, data: &mut Vec<(i32, DirEntry)>) -> (r: Result<(), StoreError>)
        requires
            old(self).wf(),
            forall|k: int| 0 <= k < old(data)@.len() ==> (#[trigger] old(data)@[k]).1.wf(),
        ensures
            final(self).wf(),
            *final(data) == *old(data),
            update_result(old(self).store(), final(self).store(), old(data)@, r),
            final(self).view_current(),
            final(self).included() == old(self).included(),
            final(self).excluded() == old(self).excluded(),
            final(self).sort_spec() == old(self).sort_spec(),
            final(self).pattern() == old(self).pattern(),
    {
        self.ix_list.clear();
        let r = self.source.update(data);
        self.update_ix_list();
        r
    }

    /// Shows only entries with label `label_id` (or another included one),
    /// taking it out of the excluded labels.
    pub fn add_inlude_label(&mut self, label_id: u32)
        requires
            old(self).wf(),
        ensures
            final(self).wf(),
            final(self).included() == old(self).included().insert(label_id as i32),
            final(self).excluded() == old(self).excluded().remove(label_id as i32),
            final(self).view_current(),
            final(self).states_current(),
            final(self).store() == old(self).store(),
            final(self).sort_spec() == old(self).sort_spec(),
            final(self).pattern() == old(self).pattern(),
    {
        let id = #[verifier::truncate] (label_id as i32);
        self.exclude_labels.remove(&id);
        self.include_labels.insert(id);
        self.update_ix_list();
        self.update_label_states();
    }

    /// Hides entries with label `label_id`, taking it out of the included
    /// labels.
    pub fn add_exclude_label(&mut self, label_id: u32)
        requires
            old(self).wf(),
        ensures
            final(self).wf(),
            final(self).excluded() == old(self).excluded().insert(label_id as i32),
            final(self).included() == old(self).included().remove(label_id as i32),
            final(self).view_current(),
            final(self).states_current(),
            final(self).store() == old(self).store(),
            final(self).sort_spec() == old(self).sort_spec(),
            final(self).pattern() == old(self).pattern(),
    {
        let id = #[verifier::truncate] (label_id as i32);
        self.include_labels.remove(&id);
        self.exclude_labels.insert(id);
        self.update_ix_list();
        self.update_label_states();
    }

    /// Takes label `label_id` out of the filter.
    pub fn remove_label_filter(&mut self, label_id: u32)
        requires
            old(self).wf(),
        ensures
            final(self).wf(),
            final(self).included() == old(self).included().remove(label_id as i32),
            final(self).excluded() == old(self).excluded().remove(label_id as i32),
            final(self).view_current(),
            final(self).states_current(),
            final(self).store() == old(self).store(),
            final(self).sort_spec() == old(self).sort_spec(),
            final(self).pattern() == old(self).pattern(),
    {
        let id = #[verifier::truncate] (label_id as i32);
        self.exclude_labels.remove(&id);
        self.include_labels.remove(&id);
        self.update_ix_list();
        self.update_label_states();
    }

    /// Adds a label named `name` unless one of that name exists; returns
    /// whether it was added.
    pub fn add_label(&mut self, name: &str) -> (r: bool)
        requires
            old(self).wf(),
        ensures
            final(self).wf(),
            r == ((!exists|i: int| 0 <= i < old(self).store().label_rows().len() && #[trigger] old(self).store().label_rows()[i].name@ == name@)
                && old(self).store().next_id() < i32::MAX),
            r ==> final(self).store().label_rows().len() == old(self).store().label_rows().len() + 1
                && final(self).store().label_rows().last().name@ == name@
                && final(self).store().label_rows().drop_last() == old(self).store().label_rows(),
            !r ==> final(self).store() == old(self).store(),
            final(self).store().link_rows() == old(self).store().link_rows(),
            final(self).store().entry_rows() == old(self).store().entry_rows(),
            final(self).view_current(),
            final(self).states_current(),
    {
        let r = self.source.add_label(name);
        proof {
            if r {
                assert(self.source.label_rows().drop_last() =~= old(self).store().label_rows());
            }
        }
        self.update_ix_list();
        self.update_label_states();
        r
    }

    /// Deletes label `label_id` and takes it out of the filter.
    pub fn remove_label(&mut self, label_id: u32)
        requires
            old(self).wf(),
        ensures
            final(self).wf(),
            final(self).store().label_rows() == old(self).store().label_rows().filter(|l: crate::models::Label| l.id != label_id as i32),
            final(self).store().link_rows() == old(self).store().link_rows().filter(
                |l: crate::models::Entry2Label| l.label_id != label_id as i32,
            ),
            final(self).store().entry_rows() == old(self).store().entry_rows(),
            final(self).included() == old(self).included().remove(label_id as i32),
            final(self).excluded() == old(self).excluded().remove(label_id as i32),
            final(self).view_current(),
            final(self).states_current(),
    {
        let id = #[verifier::truncate] (label_id as i32);
        self.source.remove_label(id);
        self.remove_label_filter(label_id);
    }

    /// The ids of the labels attached to entry `id`, in label row order.
    pub fn entry_labels(&self, id: u32) -> (r: Vec<i32>)
        requires
            self.wf(),
        ensures
            r@ == self.store().label_rows().filter(
                |l: crate::models::Label| self.store().link_rows().contains(crate::models::Entry2Label { entry_id: id as i32, label_id: l.id }),
            ).map_values(|l: crate::models::Label| l.id),
    {
        self.source.dir_labels(#[verifier::truncate] (id as i32))
    }

    /// Attaches every label of `labels` to every entry of `entries`, then
    /// rebuilds the view.
    pub fn add_entry_labels(&mut self, entries: Vec<u32>, labels: Vec<u32>) -> (r: Result<(), StoreError>)
        requires
            old(self).wf(),
        ensures
            final(self).wf(),
            ({
                let es = entries@.map_values(|x: u32| x as i32);
                let ls = labels@.map_values(|x: u32| x as i32);
                &&& r is Ok <==> pairs_valid(old(self).store().entry_rows(), old(self).store().label_rows(), es, ls)
                &&& r is Ok ==> final(self).store().link_rows() == add_links(old(self).store().link_rows(), pairs(es, ls))
                &&& r is Err ==> final(self).store() == old(self).store()
            }),
            final(self).store().entry_rows() == old(self).store().entry_rows(),
            final(self).store().label_rows() == old(self).store().label_rows(),
            final(self).view_current(),
            final(self).states_current(),
    {
        let r = self.source.add_entry_labels(to_ids(entries), to_ids(labels));
        self.update_ix_list();
        self.update_label_states();
        r
    }

    /// Detaches every label of `labels` from every entry of `entries`, then
    /// rebuilds the view.
    pub fn remove_entry_labels(&mut self, entries: Vec<u32>, labels: Vec<u32>)
        requires
            old(self).wf(),
        ensures
            final(self).wf(),
            final(self).store().link_rows() == old(self).store().link_rows().filter(
                |x: crate::models::Entry2Label| !crate::store::in_pairs(entries@.map_values(|x: u32| x as i32), labels@.map_values(|x: u32| x as i32))(x),
            ),
            final(self).store().entry_rows() == old(self).store().entry_rows(),
            final(self).store().label_rows() == old(self).store().label_rows(),
            final(self).view_current(),
            final(self).states_current(),
    {
        self.source.remove_entry_labels(to_ids(entries), to_ids(labels));
        self.update_ix_list();
        self.update_label_states();
    }

    /// Adds a location of size zero.
    pub fn add_location(&mut self, name: &str, path: &str) -> (r: Result<(), StoreError>)
        requires
            old(self).wf(),
        ensures
            final(self).wf(),
            r is Err <==> old(self).store().next_id() == i32::MAX,
            r is Ok ==> final(self).store().location_rows().len() == old(self).store().location_rows().len() + 1
                && final(self).store().location_rows().last().name@ == name@
                && final(self).store().location_rows().last().path@ == path@,
            final(self).store().entry_rows() == old(self).store().entry_rows(),
            final(self).view() == old(self).view(),
    {
        self.source.add_location(name, path)
    }

    /// Deletes location `id` with the entries under it.
    pub fn remove_location(&mut self, id: u32)
        requires
            old(self).wf(),
        ensures
            final(self).wf(),
            final(self).store().location_rows() == old(self).store().location_rows().filter(|l: Location| l.id != id as i32),
            final(self).store().entry_rows() == old(self).store().entry_rows().filter(|e: Entry| e.location_id != id as i32),
            final(self).view_current(),
    {
        self.remove_location_id(#[verifier::truncate] (id as i32));
    }

    /// Deletes location `id` with the entries under it.
    pub fn remove_location_id(&mut self, id: i32)
        requires
            old(self).wf(),
        ensures
            final(self).wf(),
            final(self).store().location_rows() == old(self).store().location_rows().filter(|l: Location| l.id != id),
            final(self).store().entry_rows() == old(self).store().entry_rows().filter(|e: Entry| e.location_id != id),
            final(self).view_current(),
    {
        self.ix_list.clear();
        self.source.remove_location(id);
        self.update_ix_list();
    }

    /// The location rows.
    pub fn get_locations(&self) -> (r: Vec<Location>)
        ensures
            r@ == self.store().location_rows(),
    {
        self.source.get_locations()
    }

    /// Records in the catalog a rename done on disk (see
    /// `Store::rename_entry`), then rebuilds the view.
    pub fn rename_entry(&mut self, entry: Entry, new_name: &str, new_path: &str, is_file: bool) -> (r: Result<(), StoreError>)
        requires
            old(self).wf(),
        ensures
            final(self).wf(),
            ({
                let rows = old(self).store().entry_rows();
                let found = crate::store::first_match(rows, crate::store::entry_with_id(entry.id));
                let at = crate::store::first_match(rows, crate::store::entry_at(new_path@));
                let files = old(self).store().file_rows();
                let has_file = crate::store::first_match(files, crate::store::file_of(entry.id)) is Some;
                let single = if is_file {
                    Some((new_name@, new_path@))
                } else {
                    None
                };
                &&& found is None ==> r == Err::<(), StoreError>(StoreError::NotFound)
                &&& found is Some && at is Some && at != found ==> r == Err::<(), StoreError>(StoreError::PathTaken)
                &&& found is Some && (at is None || at == found) && is_file && !has_file
                    ==> r == Err::<(), StoreError>(StoreError::NotFound)
                &&& found is Some && (at is None || at == found) && (!is_file || has_file) ==> r is Ok
                &&& r is Err ==> final(self).store() == old(self).store()
                &&& r is Ok ==> found is Some && crate::store::relocated(
                    rows,
                    old(self).store().file_rows(),
                    final(self).store().entry_rows(),
                    final(self).store().file_rows(),
                    found.unwrap(),
                    new_name@,
                    new_path@,
                    single,
                )
            }),
            final(self).view_current(),
    {
        let r = self.source.rename_entry(entry, new_name, new_path, is_file);
        self.update_ix_list();
        r
    }

    /// Records in the catalog that file entry `entry` was moved into a
    /// directory of its own (see `Store::move_file_to_dir`), then rebuilds
    /// the view.
    pub fn move_file_entry_to_dir_entry(
        &mut self,
        entry: Entry,
        new_entry_name: &str,
        new_entry_path: &str,
        new_file_name: &str,
        new_file_path: &str,
    ) -> (r: Result<(), StoreError>)
        requires
            old(self).wf(),
        ensures
            final(self).wf(),
            ({
                let rows = old(self).store().entry_rows();
                let found = crate::store::first_match(rows, crate::store::entry_with_id(entry.id));
                let at = crate::store::first_match(rows, crate::store::entry_at(new_entry_path@));
                let files = old(self).store().file_rows();
                let has_file = crate::store::first_match(files, crate::store::file_of(entry.id)) is Some;
                &&& found is None ==> r == Err::<(), StoreError>(StoreError::NotFound)
                &&& found is Some && at is Some && at != found ==> r == Err::<(), StoreError>(StoreError::PathTaken)
                &&& found is Some && (at is None || at == found) && !has_file ==> r == Err::<(), StoreError>(StoreError::NotFound)
                &&& found is Some && (at is None || at == found) && has_file ==> r is Ok
                &&& r is Err ==> final(self).store() == old(self).store()
                &&& r is Ok ==> found is Some && crate::store::relocated(
                    rows,
                    old(self).store().file_rows(),
                    final(self).store().entry_rows(),
                    final(self).store().file_rows(),
                    found.unwrap(),
                    new_entry_name@,
                    new_entry_path@,
                    Some((new_file_name@, new_file_path@)),
                )
            }),
            final(self).view_current(),
    {
        let r = self.source.move_file_to_dir(&entry, new_entry_name, new_entry_path, new_file_name, new_file_path);
        self.update_ix_list();
        r
    }

    /// Records in the catalog that `entry` was deleted from disk, then
    /// rebuilds the view.
    pub fn remove_entry(&mut self, entry: &Entry)
        requires
            old(self).wf(),
        ensures
            final(self).wf(),
            final(self).store().entry_rows() == old(self).store().entry_rows().filter(|e: Entry| e.id != entry.id),
            final(self).store().file_rows() == old(self).store().file_rows().filter(|f: File| f.entry_id != entry.id),
            final(self).store().link_rows() == old(self).store().link_rows().filter(
                |l: crate::models::Entry2Label| l.entry_id != entry.id,
            ),
            final(self).store().label_rows() == old(self).store().label_rows(),
            final(self).view_current(),
    {
        self.ix_list.clear();
        self.source.remove_entry(entry.id);
        self.update_ix_list();
    }

    /// Records in the catalog that `file` was deleted from disk, then
    /// rebuilds the view.
    pub fn remove_file(&mut self, file: &File)
        requires
            old(self).wf(),
        ensures
            final(self).wf(),
            final(self).store().file_rows() == old(self).store().file_rows().filter(|f: File| f.id != file.id),
            final(self).store().entry_rows() == old(self).store().entry_rows(),
            final(self).store().link_rows() == old(self).store().link_rows(),
            final(self).store().label_rows() == old(self).store().label_rows(),
            final(self).view_current(),
    {
        self.source.remove_file(file.id);
        self.update_ix_list();
    }

    /// The label filter rows.
    pub fn get_label_filters(&self) -> (r: Vec<LabelAutoFilter>)
        ensures
            r@ == self.store().filter_rows(),
    {
        self.source.get_label_filters()
    }

    /// Stores a label filter (see `Store::add_update_label_filter`).
    pub fn add_update_label_filter(&mut self, filter: &LabelAutoFilter) -> (r: Result<(), StoreError>)
        requires
            old(self).wf(),
        ensures
            final(self).wf(),
            filter.id > 0 ==> (r is Err <==> crate::store::first_match(
                old(self).store().filter_rows(),
                crate::store::filter_with_id(filter.id),
            ) is None),
            filter.id <= 0 ==> (r is Err <==> old(self).store().next_id() == i32::MAX),
            r is Err ==> final(self).store() == old(self).store(),
            r is Ok && filter.id > 0 ==> final(self).store().filter_rows() == old(self).store().filter_rows().update(
                crate::store::first_match(old(self).store().filter_rows(), crate::store::filter_with_id(filter.id)).unwrap(),
                *filter,
            ),
            r is Ok && filter.id <= 0 ==> final(self).store().filter_rows() == old(self).store().filter_rows().push(
                LabelAutoFilter {
                    id: old(self).store().next_id(),
                    name: filter.name,
                    filter: filter.filter,
                    label_id: filter.label_id,
                },
            ),
            final(self).store().entry_rows() == old(self).store().entry_rows(),
            final(self).store().label_rows() == old(self).store().label_rows(),
            final(self).store().link_rows() == old(self).store().link_rows(),
            final(self).view() == old(self).view(),
    {
        self.source.add_update_label_filter(filter)
    }

    /// Deletes the label filter with the id of `filter`.
    pub fn delete_label_filter(&mut self, filter: &LabelAutoFilter)
        requires
            old(self).wf(),
        ensures
            final(self).wf(),
            final(self).store().filter_rows() == old(self).store().filter_rows().filter(|f: LabelAutoFilter| f.id != filter.id),
            final(self).store().entry_rows() == old(self).store().entry_rows(),
            final(self).view() == old(self).view(),
    {
        self.source.delete_label_filter(filter)
    }

    /// The ids of the entries whose flag in `matched` is set, in row order.
    pub fn ids_matching(&self, matched: &Vec<bool>) -> (r: Vec<i32>)
        requires
            matched@.len() == self.store().entry_rows().len(),
        ensures
            r@ == ids_where(self.store().entry_rows(), matched@, matched@.len() as int),
    {
        let entries = self.source.get_all_entries();
        let mut ids: Vec<i32> = Vec::new();
        let mut i: usize = 0;
        while i < matched.len()
            invariant
                i <= matched@.len(),
                matched@.len() == entries@.len(),
                entries@ == self.store().entry_rows(),
                ids@ == ids_where(entries@, matched@, i as int),
            decreases matched@.len() - i,
        {
            if matched[i] {
                ids.push(entries[i].id);
            }
            i = i + 1;
        }
        ids
    }

    /// The ids of the entries whose name the case-insensitive regular
    /// expression `regex` matches; an error where it does not compile.
    pub fn get_entries_for_regex(&self, regex: &str) -> (r: Result<Vec<i32>, LensError>)
        ensures
            r is Err <==> !ci_regex_valid(regex@),
            r is Err ==> r == Err::<Vec<i32>, LensError>(LensError::InvalidPattern),
            r is Ok ==> r.unwrap()@ == ids_where(
                self.store().entry_rows(),
                matches_of(Some(regex@), self.store().entry_rows()),
                self.store().entry_rows().len() as int,
            ),
    {
        let m = match Matcher::compile(regex) {
            Some(m) => m,
            None => return Err(LensError::InvalidPattern),
        };
        let entries = self.source.get_all_entries();
        let ghost want = matches_of(Some(regex@), entries@);
        let mut matched: Vec<bool> = Vec::new();
        let mut i: usize = 0;
        while i < entries.len()
            invariant
                i <= entries@.len(),
                m.source() == regex@,
                want == matches_of(Some(regex@), entries@),
                matched@ == want.take(i as int),
            decreases entries@.len() - i,
        {
            matched.push(m.is_match(entries[i].name.as_str()));
            assert(matched@ =~= want.take(i + 1));
            i = i + 1;
        }
        assert(want.take(entries@.len() as int) =~= want);
        Ok(self.ids_matching(&matched))
    }

    /// Hands the writes made since the last call to the durable backend.
    pub fn take_writes(&mut self) -> (r: Vec<crate::store::Write>)
        requires
            old(self).wf(),
        ensures
            final(self).wf(),
            r@ == old(self).store().journal(),
            final(self).store().journal().len() == 0,
            final(self).store().entry_rows() == old(self).store().entry_rows(),
            final(self).view() == old(self).view(),
    {
        self.source.take_writes()
    }
}

/// The ids of the first `n` entries whose flag in `matched` is set.
pub open spec fn ids_where(entries: Seq<Entry>, matched: Seq<bool>, n: int) -> Seq<i32>
    decreases n,
{
    if n <= 0 {
        Seq::empty()
    } else if matched[n - 1] {
        ids_where(entries, matched, n - 1).push(entries[n - 1].id)
    } else {
        ids_where(entries, matched, n - 1)
    }
}


impl Lens {
    /// Loads the rows read back from the backend into the catalog (see
    /// `Store::load_from_store`), then rebuilds the view and label states.
    pub fn load_from_store(
        &mut self,
        locations: Vec<Location>,
        entries: Vec<Entry>,
        files: Vec<File>,
        labels: Vec<crate::models::Label>,
        links: Vec<crate::models::Entry2Label>,
        filters: Vec<LabelAutoFilter>,
    ) -> (r: Result<(), StoreError>)
        requires
            old(self).wf(),
        ensures
            final(self).wf(),
            r is Ok <==> crate::store::rows_valid(locations@, entries@, files@, labels@, links@, filters@),
            r is Ok ==> final(self).store().entry_rows().to_multiset() == entries@.to_multiset()
                && crate::store::ids_ascending(final(self).store().entry_rows()) && final(self).store().link_rows() == links@
                && final(self).store().label_rows() == labels@,
            r is Err ==> final(self).store() == old(self).store(),
            final(self).view_current(),
            final(self).states_current(),
            final(self).sort_spec() == old(self).sort_spec(),
            final(self).search() == old(self).search(),
            final(self).pattern() == old(self).pattern(),
            final(self).included() == old(self).included(),
            final(self).excluded() == old(self).excluded(),
    {
        self.ix_list.clear();
        let r = self.source.load_from_store(locations, entries, files, labels, links, filters);
        self.update_ix_list();
        self.update_label_states();
        r
    }
}

} // verus!
