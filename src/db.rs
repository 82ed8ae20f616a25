//! A minimal label database of paths: the rows it reads back, and the
//! decision of how a label is attached to a path.
use vstd::prelude::*;

verus! {

/// A label row of the path database.
#[derive(Debug)]
pub struct Label {
    id: i32,
    pub name: String,
}

/// An entry row of the path database.
#[derive(Debug)]
pub struct Entry {
    id: i32,
    pub path: String,
}

impl Label {
    pub closed spec fn spec_id(&self) -> i32 {
        self.id
    }

    pub closed spec fn spec_name(&self) -> String {
        self.name
    }

    pub fn id(&self) -> (r: i32)
        ensures
            r == self.spec_id(),
    {
        self.id
    }
}

impl Entry {
    pub closed spec fn spec_id(&self) -> i32 {
        self.id
    }

    pub closed spec fn spec_path(&self) -> String {
        self.path
    }

    pub fn id(&self) -> (r: i32)
        ensures
            r == self.spec_id(),
    {
        self.id
    }
}

/// The labels made from rows of (id, name), in row order.
pub fn get_labels(rows: Vec<(i32, String)>) -> (r: Vec<Label>)
    ensures
        r@.len() == rows@.len(),
        forall|i: int| 0 <= i < r@.len() ==> (#[trigger] r@[i]).spec_id() == rows@[i].0 && r@[i].spec_name() == rows@[i].1,
{
    let mut out: Vec<Label> = Vec::new();
    let mut i: usize = 0;
    while i < rows.len()
        invariant
            i <= rows@.len(),
            out@.len() == i,
            forall|a: int| 0 <= a < i ==> (#[trigger] out@[a]).id == rows@[a].0 && out@[a].name == rows@[a].1,
        decreases rows@.len() - i,
    {
        out.push(Label { id: rows[i].0, name: rows[i].1.clone() });
        i = i + 1;
    }
    out
}

/// The entries made from rows of (id, path), in row order.
pub fn get_entries(rows: Vec<(i32, String)>) -> (r: Vec<Entry>)
    ensures
        r@.len() == rows@.len(),
        forall|i: int| 0 <= i < r@.len() ==> (#[trigger] r@[i]).spec_id() == rows@[i].0 && r@[i].spec_path() == rows@[i].1,
{
    let mut out: Vec<Entry> = Vec::new();
    let mut i: usize = 0;
    while i < rows.len()
        invariant
            i <= rows@.len(),
            out@.len() == i,
            forall|a: int| 0 <= a < i ==> (#[trigger] out@[a]).id == rows@[a].0 && out@[a].path == rows@[a].1,
        decreases rows@.len() - i,
    {
        out.push(Entry { id: rows[i].0, path: rows[i].1.clone() });
        i = i + 1;
    }
    out
}

/// How a label gets attached to a path.
#[derive(Debug, PartialEq, Eq, Structural)]
pub enum LabelLink {
    /// Store the association of this entry and label.
    Link { entry_id: i32, label_id: i32 },
    /// No entry has the path yet: add one first, then attach again.
    AddEntryFirst,
}

/// Decides how to attach `label` to `path`, given the entries stored: link
/// the first entry at that path, or add an entry for it first.
pub fn add_entry_label(entries: &Vec<Entry>, path: &str, label: &Label) -> (r: LabelLink)
    ensures
        match r {
            LabelLink::Link { entry_id, label_id } => label_id == label.spec_id() && exists|i: int|
                0 <= i < entries@.len() && entries@[i].spec_path()@ == path@ && entries@[i].spec_id() == entry_id
                    && forall|j: int| 0 <= j < i ==> #[trigger] entries@[j].spec_path()@ != path@,
            LabelLink::AddEntryFirst => forall|j: int| 0 <= j < entries@.len() ==> #[trigger] entries@[j].spec_path()@ != path@,
        },
{
    let wanted = path.to_owned();
    let mut i: usize = 0;
    while i < entries.len()
        invariant
            i <= entries@.len(),
            wanted@ == path@,
            forall|j: int| 0 <= j < i ==> #[trigger] entries@[j].path@ != path@,
        decreases entries@.len() - i,
    {
        if entries[i].path == wanted {
            return LabelLink::Link { entry_id: entries[i].id, label_id: label.id };
        }
        i = i + 1;
    }
    LabelLink::AddEntryFirst
}

} // verus!
