//! Rows of the catalog and the transient values that a scan produces.
use vstd::prelude::*;

verus! {

/// A named root path under scan.
#[derive(Clone, Debug)]
pub struct Location {
    pub id: i32,
    pub name: String,
    pub path: String,
    pub size: i64,
}

/// One top-level object found under a location by a scan: a single file, or
/// a whole subdirectory collapsed into one aggregate.
#[derive(Clone, Debug)]
pub struct DirEntry {
    pub name: String,
    pub location_id: i32,
    pub path: String,
    pub files: Vec<FileEntry>,
    pub size: u64,
}

/// One leaf file of a scanned aggregate.
#[derive(Clone, Debug)]
pub struct FileEntry {
    pub name: String,
    pub path: String,
    pub size: u64,
}

/// A stored top-level file or directory.
#[derive(Clone, Debug)]
pub struct Entry {
    pub id: i32,
    pub location_id: i32,
    pub name: String,
    pub path: String,
    pub size: i64,
    pub grade: Option<i32>,
}

/// A stored leaf file, owned by exactly one entry.
#[derive(Clone, Debug)]
pub struct File {
    pub id: i32,
    pub entry_id: i32,
    pub name: String,
    pub path: String,
    pub size: i64,
}

/// A user-defined tag.
#[derive(Clone, Debug)]
pub struct Label {
    pub id: i32,
    pub name: String,
}

/// One association between an entry and a label.
#[derive(Clone, Copy, Debug, PartialEq, Eq, Structural)]
pub struct Entry2Label {
    pub entry_id: i32,
    pub label_id: i32,
}

/// A named regular expression whose matches are to receive a label.
#[derive(Clone, Debug)]
pub struct LabelAutoFilter {
    pub id: i32,
    pub name: String,
    pub filter: String,
    pub label_id: i32,
}

/// The columns of a label filter that a new row is written with; the id is
/// assigned on insertion.
#[derive(Clone, Debug)]
pub struct LabelAutoFilterInsert {
    pub name: String,
    pub filter: String,
    pub label_id: i32,
}

/// Sum of the sizes of a sequence of scanned files.
pub open spec fn files_size(files: Seq<FileEntry>) -> int
    decreases files.len(),
{
    if files.len() == 0 {
        0
    } else {
        files_size(files.drop_last()) + files.last().size
    }
}

impl DirEntry {
    /// An aggregate as a scan produces it: its size is the sum of its files.
    pub open spec fn wf(&self) -> bool {
        self.size as int == files_size(self.files@)
    }
}

impl Location {
    pub fn duplicate(&self) -> (r: Location)
        ensures
            r == *self,
    {
        Location { id: self.id, name: self.name.clone(), path: self.path.clone(), size: self.size }
    }
}

impl Entry {
    pub fn duplicate(&self) -> (r: Entry)
        ensures
            r == *self,
    {
        Entry {
            id: self.id,
            location_id: self.location_id,
            name: self.name.clone(),
            path: self.path.clone(),
            size: self.size,
            grade: self.grade,
        }
    }
}

impl File {
    pub fn duplicate(&self) -> (r: File)
        ensures
            r == *self,
    {
        File {
            id: self.id,
            entry_id: self.entry_id,
            name: self.name.clone(),
            path: self.path.clone(),
            size: self.size,
        }
    }
}

impl Label {
    pub fn duplicate(&self) -> (r: Label)
        ensures
            r == *self,
    {
        Label { id: self.id, name: self.name.clone() }
    }
}

impl LabelAutoFilter {
    pub fn duplicate(&self) -> (r: LabelAutoFilter)
        ensures
            r == *self,
    {
        LabelAutoFilter {
            id: self.id,
            name: self.name.clone(),
            filter: self.filter.clone(),
            label_id: self.label_id,
        }
    }
}

impl LabelAutoFilterInsert {
    /// The insertable columns of `item`: everything but its id.
    pub fn new(item: &LabelAutoFilter) -> (r: Self)
        ensures
            r.name@ == item.name@,
            r.filter@ == item.filter@,
            r.label_id == item.label_id,
    {
        LabelAutoFilterInsert {
            name: item.name.clone(),
            filter: item.filter.clone(),
            label_id: item.label_id,
        }
    }
}

} // verus!
