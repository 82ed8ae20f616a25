use filelens::db::{add_entry_label, get_entries, get_labels, LabelLink};
use filelens::dir_search::{list_files_in_dir, merge_results, WalkItem};
use filelens::lens::{
    check_move_to_dir, check_rename, pretty_size, Lens, LabelState, LensError, PathKind, Sort, SortColumn, SortOrder,
};
use filelens::models::{DirEntry, Entry, Entry2Label, File, FileEntry, Label, LabelAutoFilter, LabelAutoFilterInsert, Location};
use filelens::search::{create_match_regex, match_pattern};
use filelens::store::{Store, StoreError, Write};

fn file(name: &str, path: &str, size: u64) -> FileEntry {
    FileEntry { name: name.to_string(), path: path.to_string(), size }
}

fn dir(location_id: i32, name: &str, path: &str, files: Vec<FileEntry>) -> (i32, DirEntry) {
    let size = files.iter().map(|f| f.size).sum();
    (location_id, DirEntry { name: name.to_string(), location_id, path: path.to_string(), files, size })
}

fn scenario_scan() -> Vec<(i32, DirEntry)> {
    vec![
        dir(1, "a", "/r/a", vec![file("x", "/r/a/x", 10), file("y", "/r/a/y", 20)]),
        dir(1, "b.txt", "/r/b.txt", vec![file("b.txt", "/r/b.txt", 5)]),
    ]
}

fn entry_named<'a>(store: &'a Store, name: &str) -> &'a Entry {
    store.get_all_entries().iter().find(|e| e.name == name).unwrap()
}

fn view_names(lens: &Lens) -> Vec<String> {
    (0..lens.get_dir_count()).map(|i| lens.get_dir_entry(i).unwrap().name.clone()).collect()
}

#[test]
fn it_works() {
    assert_eq!(2 + 2, 4);
}

#[test]
fn scan_yields_one_entry_per_aggregate() {
    let mut store = Store::init("mem");
    store.update(&scenario_scan()).unwrap();
    let entries = store.get_all_entries();
    assert_eq!(entries.len(), 2);
    let a = entry_named(&store, "a");
    let b = entry_named(&store, "b.txt");
    assert_eq!(a.size, 30);
    assert_eq!(b.size, 5);
    assert_eq!(store.get_files(a).unwrap().len(), 2);
    assert_eq!(store.get_files(b).unwrap().len(), 1);
}

#[test]
fn rescan_after_file_removed_shrinks_entry() {
    let mut store = Store::init("mem");
    store.update(&scenario_scan()).unwrap();
    store.take_writes();
    let a_id = entry_named(&store, "a").id;
    let rescan = vec![
        dir(1, "a", "/r/a", vec![file("x", "/r/a/x", 10)]),
        dir(1, "b.txt", "/r/b.txt", vec![file("b.txt", "/r/b.txt", 5)]),
    ];
    store.update(&rescan).unwrap();
    let a = entry_named(&store, "a");
    assert_eq!(a.id, a_id);
    assert_eq!(a.size, 10);
    assert_eq!(store.get_files(a).unwrap().len(), 1);
    let writes = store.take_writes();
    assert_eq!(writes.iter().filter(|w| matches!(w, Write::DeleteFile(_))).count(), 1);
    assert_eq!(writes.iter().filter(|w| matches!(w, Write::DeleteEntry(_))).count(), 0);
    assert_eq!(writes.iter().filter(|w| matches!(w, Write::UpdateEntrySize { size: 10, .. })).count(), 1);
}

#[test]
fn second_identical_update_writes_nothing() {
    let mut store = Store::init("mem");
    let scan = scenario_scan();
    store.update(&scan).unwrap();
    assert!(!store.take_writes().is_empty());
    store.update(&scan).unwrap();
    assert!(store.take_writes().is_empty());
    assert_eq!(store.get_all_entries().len(), 2);
}

#[test]
fn paths_absent_from_scan_are_deleted_and_new_ones_inserted() {
    let mut store = Store::init("mem");
    store.update(&scenario_scan()).unwrap();
    let scan = vec![dir(1, "c", "/r/c", vec![file("z", "/r/c/z", 7)]), dir(1, "c", "/r/c", vec![])];
    store.update(&scan).unwrap();
    let entries = store.get_all_entries();
    assert_eq!(entries.len(), 1);
    assert_eq!(entries[0].path, "/r/c");
    assert_eq!(entries[0].size, 7);
}

#[test]
fn label_include_and_exclude_filter_view() {
    let mut lens = Lens::new("mem");
    let mut scan = scenario_scan();
    lens.update_data(&mut scan).unwrap();
    assert!(lens.add_label("L1"));
    let l1 = lens.source().get_all_labels()[0].id;
    let a = lens.source().get_all_entries().iter().find(|e| e.name == "a").unwrap().id;
    lens.add_entry_labels(vec![a as u32], vec![l1 as u32]).unwrap();
    assert_eq!(view_names(&lens), vec!["a", "b.txt"]);
    lens.add_inlude_label(l1 as u32);
    assert_eq!(view_names(&lens), vec!["a"]);
    assert!(matches!(lens.get_labels()[0].state, LabelState::Include));
    lens.add_exclude_label(l1 as u32);
    assert_eq!(view_names(&lens), vec!["b.txt"]);
    assert!(matches!(lens.get_labels()[0].state, LabelState::Exclude));
    lens.remove_label_filter(l1 as u32);
    assert_eq!(view_names(&lens), vec!["a", "b.txt"]);
}

#[test]
fn exclusion_wins_over_inclusion() {
    let mut lens = Lens::new("mem");
    let mut scan = scenario_scan();
    lens.update_data(&mut scan).unwrap();
    lens.add_label("keep");
    lens.add_label("drop");
    let keep = lens.source().get_all_labels()[0].id as u32;
    let drop = lens.source().get_all_labels()[1].id as u32;
    let ids: Vec<u32> = lens.source().get_all_entries().iter().map(|e| e.id as u32).collect();
    lens.add_entry_labels(ids.clone(), vec![keep]).unwrap();
    lens.add_entry_labels(vec![ids[0]], vec![drop]).unwrap();
    lens.add_inlude_label(keep);
    lens.add_exclude_label(drop);
    assert_eq!(lens.get_dir_count(), 1);
}

#[test]
fn search_words_match_in_order_with_gaps() {
    let m = create_match_regex("foo bar").unwrap();
    assert!(m.is_match("foo-xyz-bar"));
    assert!(m.is_match("foobarz"));
    assert!(m.is_match("FOO and BAR"));
    assert!(!m.is_match("barfoo"));
}

#[test]
fn match_pattern_escapes_and_joins_words() {
    assert_eq!(match_pattern("foo bar"), "foo.*bar.*");
    assert_eq!(match_pattern("  a.b  c "), "a\\.b.*c.*");
    assert_eq!(match_pattern(""), "");
}

#[test]
fn search_text_filters_the_view() {
    let mut lens = Lens::new("mem");
    let mut scan = scenario_scan();
    lens.update_data(&mut scan).unwrap();
    assert_eq!(lens.update_search_text("TXT"), Some(1));
    assert_eq!(view_names(&lens), vec!["b.txt"]);
    assert_eq!(lens.update_search_text("TXT"), None);
    assert_eq!(lens.update_search_text(""), Some(2));
}

#[test]
fn sort_by_name_ascending_and_descending() {
    let mut lens = Lens::new("mem");
    let mut scan = vec![
        dir(1, "m", "/r/m", vec![file("m", "/r/m", 3)]),
        dir(1, "c", "/r/c", vec![file("c", "/r/c", 9)]),
        dir(1, "x", "/r/x", vec![file("x", "/r/x", 1)]),
    ];
    lens.update_data(&mut scan).unwrap();
    assert_eq!(view_names(&lens), vec!["c", "m", "x"]);
    lens.order_by(SortColumn::Name, SortOrder::Desc);
    assert_eq!(view_names(&lens), vec!["x", "m", "c"]);
    lens.order_by(SortColumn::Size, SortOrder::Asc);
    assert_eq!(view_names(&lens), vec!["x", "m", "c"]);
    lens.order_by(SortColumn::Date, SortOrder::Asc);
    assert_eq!(view_names(&lens), vec!["c", "m", "x"]);
}

#[test]
fn add_then_remove_entry_labels_restores_labels() {
    let mut store = Store::init("mem");
    store.update(&scenario_scan()).unwrap();
    store.add_label("L1");
    store.add_label("L2");
    let labels: Vec<i32> = store.get_all_labels().iter().map(|l| l.id).collect();
    let entries: Vec<i32> = store.get_all_entries().iter().map(|e| e.id).collect();
    store.add_entry_labels(vec![entries[0]], vec![labels[1]]).unwrap();
    let before: Vec<i32> = store.dir_labels(entries[0]);
    store.add_entry_labels(entries.clone(), vec![labels[0]]).unwrap();
    assert!(store.has_label(entries[1], labels[0]));
    store.remove_entry_labels(entries.clone(), vec![labels[0]]);
    assert_eq!(store.dir_labels(entries[0]), before);
    assert!(store.entry_labels(entries[1]).is_none());
}

#[test]
fn adding_labels_twice_adds_nothing_more() {
    let mut store = Store::init("mem");
    store.update(&scenario_scan()).unwrap();
    store.add_label("L1");
    let l = store.get_all_labels()[0].id;
    let e = store.get_all_entries()[0].id;
    store.add_entry_labels(vec![e], vec![l]).unwrap();
    store.take_writes();
    store.add_entry_labels(vec![e, e], vec![l]).unwrap();
    assert!(store.take_writes().is_empty());
}

#[test]
fn adding_labels_to_unknown_entry_fails_whole() {
    let mut store = Store::init("mem");
    store.update(&scenario_scan()).unwrap();
    store.add_label("L1");
    let l = store.get_all_labels()[0].id;
    let e = store.get_all_entries()[0].id;
    assert_eq!(store.add_entry_labels(vec![e, 999], vec![l]), Err(StoreError::NotFound));
    assert!(store.entry_labels(e).is_none());
}

#[test]
fn duplicate_label_name_is_rejected() {
    let mut store = Store::init("mem");
    assert!(store.add_label("L1"));
    assert!(!store.add_label("L1"));
    assert!(store.add_label("l1"));
    assert_eq!(store.get_all_labels().len(), 2);
}

#[test]
fn removing_label_removes_its_associations() {
    let mut store = Store::init("mem");
    store.update(&scenario_scan()).unwrap();
    store.add_label("L1");
    let l = store.get_all_labels()[0].id;
    let e = store.get_all_entries()[0].id;
    store.add_entry_labels(vec![e], vec![l]).unwrap();
    store.remove_label(l);
    assert!(store.get_all_labels().is_empty());
    assert!(!store.has_label(e, l));
}

#[test]
fn rename_directory_entry_moves_files() {
    let mut store = Store::init("mem");
    store.update(&scenario_scan()).unwrap();
    let a = entry_named(&store, "a").clone();
    store.rename_entry(a.clone(), "a2", "/r/a2", false).unwrap();
    assert!(store.get_all_entries().iter().all(|e| e.path != "/r/a"));
    let renamed = store.get_all_entries().iter().find(|e| e.path == "/r/a2").unwrap();
    assert_eq!(renamed.id, a.id);
    assert_eq!(renamed.name, "a2");
    let paths: Vec<String> = store.get_files(renamed).unwrap().iter().map(|f| f.path.clone()).collect();
    assert_eq!(paths, vec!["/r/a2/x", "/r/a2/y"]);
}

#[test]
fn rename_file_entry_renames_its_file() {
    let mut store = Store::init("mem");
    store.update(&scenario_scan()).unwrap();
    let b = entry_named(&store, "b.txt").clone();
    store.rename_entry(b.clone(), "c.txt", "/r/c.txt", true).unwrap();
    let renamed = entry_named(&store, "c.txt");
    let files = store.get_files(renamed).unwrap();
    assert_eq!(files[0].name, "c.txt");
    assert_eq!(files[0].path, "/r/c.txt");
}

#[test]
fn rename_onto_existing_path_is_refused() {
    let mut store = Store::init("mem");
    store.update(&scenario_scan()).unwrap();
    let a = entry_named(&store, "a").clone();
    assert_eq!(store.rename_entry(a, "b.txt", "/r/b.txt", false), Err(StoreError::PathTaken));
    let mut ghost = entry_named(&store, "a").clone();
    ghost.id = 4242;
    assert_eq!(store.rename_entry(ghost, "q", "/r/q", false), Err(StoreError::NotFound));
}

#[test]
fn move_file_entry_into_directory() {
    let mut store = Store::init("mem");
    store.update(&scenario_scan()).unwrap();
    let b = entry_named(&store, "b.txt").clone();
    store.move_file_to_dir(&b, "b", "/r/b", "b.txt", "/r/b/b.txt").unwrap();
    let moved = entry_named(&store, "b");
    assert_eq!(moved.path, "/r/b");
    assert_eq!(store.get_files(moved).unwrap()[0].path, "/r/b/b.txt");
}

#[test]
fn remove_entry_cascades() {
    let mut store = Store::init("mem");
    store.update(&scenario_scan()).unwrap();
    store.add_label("L1");
    let l = store.get_all_labels()[0].id;
    let a = entry_named(&store, "a").clone();
    store.add_entry_labels(vec![a.id], vec![l]).unwrap();
    store.remove_entry(a.id);
    assert_eq!(store.get_all_entries().len(), 1);
    assert!(store.get_files(&a).is_none());
    assert!(!store.has_label(a.id, l));
}

#[test]
fn remove_file_and_set_grade() {
    let mut store = Store::init("mem");
    store.update(&scenario_scan()).unwrap();
    let a = entry_named(&store, "a").clone();
    let fid = store.get_files(&a).unwrap()[0].id;
    store.remove_file(fid);
    assert_eq!(store.get_files(&a).unwrap().len(), 1);
    store.set_grade(a.clone(), 4).unwrap();
    assert_eq!(entry_named(&store, "a").grade, Some(4));
}

#[test]
fn locations_and_filters() {
    let mut store = Store::init("mem");
    store.add_location("home", "/home").unwrap();
    let locs = store.get_locations();
    assert_eq!(locs.len(), 1);
    assert_eq!(locs[0].size, 0);
    store.update(&vec![dir(locs[0].id, "a", "/home/a", vec![file("a", "/home/a", 1)])]).unwrap();
    store.remove_location(locs[0].id);
    assert!(store.get_locations().is_empty());
    assert!(store.get_all_entries().is_empty());
    let f = LabelAutoFilter { id: 0, name: "n".to_string(), filter: "x.*".to_string(), label_id: 1 };
    store.add_update_label_filter(&f).unwrap();
    let mut stored = store.get_label_filters()[0].clone();
    stored.filter = "y".to_string();
    store.add_update_label_filter(&stored).unwrap();
    assert_eq!(store.get_label_filters()[0].filter, "y");
    store.delete_label_filter(&stored);
    assert!(store.get_label_filters().is_empty());
    let missing = LabelAutoFilter { id: 77, name: "n".to_string(), filter: "x".to_string(), label_id: 1 };
    assert_eq!(store.add_update_label_filter(&missing), Err(StoreError::NotFound));
}

#[test]
fn label_auto_filter_insert_copies_columns() {
    let f = LabelAutoFilter { id: 9, name: "n".to_string(), filter: "x".to_string(), label_id: 3 };
    let i = LabelAutoFilterInsert::new(&f);
    assert_eq!(i.name, "n");
    assert_eq!(i.filter, "x");
    assert_eq!(i.label_id, 3);
}

#[test]
fn pretty_size_units() {
    assert_eq!(pretty_size(0), "0 B");
    assert_eq!(pretty_size(1000), "1000 B");
    assert_eq!(pretty_size(1001), "1 KB");
    assert_eq!(pretty_size(2_500_000), "2 MB");
    assert_eq!(pretty_size(3_000_000_001), "3 GB");
}

#[test]
fn sort_new_keeps_fields() {
    let s = Sort::new(SortColumn::Path, SortOrder::Desc);
    assert_eq!(s.column, SortColumn::Path);
    assert_eq!(s.order, SortOrder::Desc);
}

fn item(depth: usize, is_file: bool, name: &str, path: &str, len: u64) -> WalkItem {
    WalkItem { depth, is_file, is_dir: !is_file, name: name.to_string(), path: path.to_string(), len }
}

#[test]
fn walk_groups_into_top_level_aggregates() {
    let items = vec![
        item(0, false, "r", "/r", 0),
        item(1, false, "a", "/r/a", 0),
        item(2, true, "x", "/r/a/x", 10),
        item(2, false, "sub", "/r/a/sub", 0),
        item(3, true, "y", "/r/a/sub/y", 20),
        item(1, true, "b.txt", "/r/b.txt", 5),
    ];
    let out = list_files_in_dir(7, &items);
    assert_eq!(out.len(), 2);
    assert_eq!(out[0].name, "b.txt");
    assert_eq!(out[0].size, 5);
    assert_eq!(out[1].name, "a");
    assert_eq!(out[1].size, 30);
    assert_eq!(out[1].files.len(), 2);
    assert_eq!(out[1].location_id, 7);
}

#[test]
fn merged_results_are_sorted_by_name_across_locations() {
    let parts = vec![
        (1, vec![dir(1, "b", "/1/b", vec![]).1, dir(1, "d", "/1/d", vec![]).1]),
        (2, vec![dir(2, "a", "/2/a", vec![]).1, dir(2, "c", "/2/c", vec![]).1]),
    ];
    let out = merge_results(parts);
    let names: Vec<&str> = out.iter().map(|(_, d)| d.name.as_str()).collect();
    assert_eq!(names, vec!["a", "b", "c", "d"]);
    assert_eq!(out[0].0, 2);
    assert_eq!(out[1].0, 1);
}

#[test]
fn db_rows_become_values_and_link_decision() {
    let labels = get_labels(vec![(1, "red".to_string()), (2, "blue".to_string())]);
    assert_eq!(labels[1].id(), 2);
    assert_eq!(labels[1].name, "blue");
    let entries = get_entries(vec![(5, "/p".to_string()), (6, "/q".to_string())]);
    assert_eq!(entries[0].id(), 5);
    assert_eq!(add_entry_label(&entries, "/q", &labels[0]), LabelLink::Link { entry_id: 6, label_id: 1 });
    assert_eq!(add_entry_label(&entries, "/z", &labels[0]), LabelLink::AddEntryFirst);
}

#[test]
fn path_checks_before_disk_changes() {
    assert_eq!(check_rename(true, Some(PathKind::File)), Err(LensError::DestinationExists));
    assert_eq!(check_rename(false, None), Err(LensError::SourceMissing));
    assert_eq!(check_rename(false, Some(PathKind::Dir)), Ok(PathKind::Dir));
    assert_eq!(check_move_to_dir(Some(PathKind::Dir)), Err(LensError::NotAFile));
    assert_eq!(check_move_to_dir(None), Err(LensError::SourceMissing));
    assert_eq!(check_move_to_dir(Some(PathKind::File)), Ok(()));
}

#[test]
fn regex_lookup_of_entries() {
    let mut lens = Lens::new("mem");
    let mut scan = scenario_scan();
    lens.update_data(&mut scan).unwrap();
    let ids = lens.get_entries_for_regex("^B\\.").unwrap();
    let b = lens.source().get_all_entries().iter().find(|e| e.name == "b.txt").unwrap().id;
    assert_eq!(ids, vec![b]);
    assert_eq!(lens.get_entries_for_regex("(").unwrap_err(), LensError::InvalidPattern);
}

#[test]
fn view_accessors_resolve_through_the_cache() {
    let mut lens = Lens::new("mem");
    let mut scan = scenario_scan();
    lens.update_data(&mut scan).unwrap();
    assert_eq!(lens.get_dir_count(), 2);
    assert_eq!(lens.convert_ix(5), None);
    assert_eq!(lens.get_file_count(0), Some(2));
    assert_eq!(lens.get_file_entry(0, 1).unwrap().path, "/r/a/y");
    assert!(lens.get_file_entry(0, 2).is_none());
    let id = lens.get_dir_entry(1).unwrap().id;
    assert_eq!(lens.get_dir_entry_by_id(id).unwrap().name, "b.txt");
    assert!(lens.get_dir_entry_by_id(-3).is_none());
}

#[test]
fn rows_read_back_are_loaded_and_checked() {
    let loc = Location { id: 1, name: "home".to_string(), path: "/home".to_string(), size: 0 };
    let e = Entry { id: 3, location_id: 1, name: "a".to_string(), path: "/home/a".to_string(), size: 4, grade: None };
    let f = File { id: 7, entry_id: 3, name: "x".to_string(), path: "/home/a/x".to_string(), size: 4 };
    let l = Label { id: 9, name: "red".to_string() };
    let link = Entry2Label { entry_id: 3, label_id: 9 };
    let mut lens = Lens::new("mem");
    lens.load_from_store(vec![loc.clone()], vec![e.clone()], vec![f.clone()], vec![l.clone()], vec![link], vec![])
        .unwrap();
    assert_eq!(view_names(&lens), vec!["a"]);
    assert_eq!(lens.entry_labels(3), vec![9]);
    assert_eq!(lens.get_file_count(0), Some(1));
    // New rows take ids above every id read back.
    lens.add_label("blue");
    assert!(lens.source().get_all_labels().iter().any(|x| x.name == "blue" && x.id > 9));
    // A file pointing at no entry is refused and nothing changes.
    let orphan = File { id: 8, entry_id: 4, name: "y".to_string(), path: "/y".to_string(), size: 1 };
    let mut store = Store::init("mem");
    let r = store.load_from_store(vec![loc], vec![e], vec![f, orphan], vec![l], vec![], vec![]);
    assert_eq!(r, Err(StoreError::Inconsistent));
    assert!(store.get_all_entries().is_empty());
}

#[test]
fn first_scan_journals_inserts_with_fresh_ids() {
    let mut store = Store::init("mem");
    store.update(&scenario_scan()).unwrap();
    let writes = store.take_writes();
    let entry_inserts: Vec<i32> = writes
        .iter()
        .filter_map(|w| if let Write::InsertEntry(e) = w { Some(e.id) } else { None })
        .collect();
    let file_inserts = writes.iter().filter(|w| matches!(w, Write::InsertFile(_))).count();
    assert_eq!(entry_inserts.len(), 2);
    assert!(entry_inserts[0] < entry_inserts[1]);
    assert_eq!(file_inserts, 3);
    assert!(store.take_writes().is_empty());
}

#[test]
fn loading_sorts_entries_by_id_and_checks_ids() {
    let a = Entry { id: 5, location_id: 1, name: "a".to_string(), path: "/a".to_string(), size: 0, grade: None };
    let b = Entry { id: 2, location_id: 1, name: "b".to_string(), path: "/b".to_string(), size: 0, grade: None };
    let mut store = Store::init("mem");
    store.load_from_store(vec![], vec![a.clone(), b.clone()], vec![], vec![], vec![], vec![]).unwrap();
    let ids: Vec<i32> = store.get_all_entries().iter().map(|e| e.id).collect();
    assert_eq!(ids, vec![2, 5]);
    store.add_label("x");
    assert_eq!(store.get_all_labels()[0].id, 6);
    let mut dup = b.clone();
    dup.path = "/c".to_string();
    let mut other = Store::init("mem");
    assert_eq!(other.load_from_store(vec![], vec![a, b, dup], vec![], vec![], vec![], vec![]), Err(StoreError::Inconsistent));
}

#[test]
fn fresh_store_starts_ids_at_one() {
    let mut store = Store::init("mem");
    assert!(store.add_label("first"));
    assert_eq!(store.get_all_labels()[0].id, 1);
}
