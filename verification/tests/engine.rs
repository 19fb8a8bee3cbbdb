use nv::dirview::{DirView, NavError, SortOrder};
use nv::fsdata::{Entry, EntryKind, Fs};
use nv::geom::Rect;
use nv::nav::{Action, Nv};
use nv::path::CanonPath;

fn path(parts: &[&str]) -> CanonPath {
    let mut v: Vec<String> = Vec::new();
    for p in parts {
        v.push(String::from(*p));
    }
    CanonPath::from_parts(v)
}

fn entry(name: &str, kind: EntryKind) -> Entry {
    Entry::new(String::from(name), kind)
}

fn names_in_sorted_order(d: &DirView) -> Vec<String> {
    let mut out = Vec::new();
    for i in 0..d.sorted_indices.len() {
        out.push(d.entry_file_name(d.sorted_indices[i]));
    }
    out
}

#[test]
fn scan_sets_identity_permutation() {
    let mut fs = Fs::new();
    let a = path(&["a"]);
    fs.add_dir(
        &a,
        vec![
            entry("c", EntryKind::File),
            entry("a", EntryKind::File),
            entry("b", EntryKind::Dir),
        ],
    );
    let mut d = DirView::new(Rect::new(0, 0, 10, 5), a);
    assert!(d.scan_dir(&fs).is_ok());
    assert_eq!(d.entry_count(), 3);
    assert_eq!(d.sorted_indices, vec![0, 1, 2]);
}

#[test]
fn sort_is_a_permutation_and_ordered_by_name() {
    let mut fs = Fs::new();
    let a = path(&["a"]);
    fs.add_dir(
        &a,
        vec![
            entry("c", EntryKind::File),
            entry("a", EntryKind::File),
            entry("ab", EntryKind::Dir),
            entry("b", EntryKind::Dir),
        ],
    );
    let mut d = DirView::new(Rect::new(0, 0, 10, 5), a);
    assert!(d.scan_dir(&fs).is_ok());
    d.sort(SortOrder::Name);
    // a permutation of 0..4: every index exactly once
    let mut seen = vec![false; 4];
    for &i in &d.sorted_indices {
        assert!(i < 4);
        assert!(!seen[i]);
        seen[i] = true;
    }
    // lexicographic by name, a proper prefix first
    assert_eq!(
        names_in_sorted_order(&d),
        vec![
            String::from("a"),
            String::from("ab"),
            String::from("b"),
            String::from("c")
        ]
    );
}

#[test]
fn sort_keeps_the_selected_entry() {
    let mut fs = Fs::new();
    let a = path(&["a"]);
    fs.add_dir(
        &a,
        vec![
            entry("c", EntryKind::File),
            entry("a", EntryKind::File),
            entry("b", EntryKind::Dir),
        ],
    );
    let mut d = DirView::new(Rect::new(0, 0, 10, 5), a);
    assert!(d.scan_dir(&fs).is_ok());
    // identity order: row 2 shows "b"
    d.select_by_name(String::from("b"));
    assert_eq!(d.sel_file_name(), Some(String::from("b")));
    d.sort(SortOrder::Name);
    // the cursor still names the same entry, now at row 1
    assert_eq!(d.sel_file_name(), Some(String::from("b")));
    assert_eq!(d.sel[0], 1);
}

#[test]
fn ensure_sel_in_view_scrolls_minimally() {
    let mut fs = Fs::new();
    let a = path(&["a"]);
    fs.add_dir(
        &a,
        vec![
            entry("a", EntryKind::File),
            entry("b", EntryKind::File),
            entry("c", EntryKind::File),
            entry("d", EntryKind::File),
            entry("e", EntryKind::File),
        ],
    );
    let mut d = DirView::new(Rect::new(0, 0, 10, 2), a);
    assert!(d.scan_dir(&fs).is_ok());
    d.sort(SortOrder::Name);
    assert_eq!(d.inc_sel(4), 4);
    d.ensure_sel_in_view();
    // cursor on row 4, height 2: scroll by exactly the excess
    assert_eq!(d.scroll, 3);
    assert!(d.scroll <= d.sel[0] && d.sel[0] < d.scroll + 2);
    // scrolling back up: minimal shift again
    assert_eq!(d.inc_sel(-4), -4);
    d.ensure_sel_in_view();
    assert_eq!(d.scroll, 0);
}

#[test]
fn inc_sel_clamps_and_reports_zero_at_bounds() {
    let mut fs = Fs::new();
    let a = path(&["a"]);
    fs.add_dir(
        &a,
        vec![
            entry("a", EntryKind::File),
            entry("b", EntryKind::File),
            entry("c", EntryKind::File),
        ],
    );
    let mut d = DirView::new(Rect::new(0, 0, 10, 5), a);
    assert!(d.scan_dir(&fs).is_ok());
    assert_eq!(d.inc_sel(10), 2); // clamped to the last row
    assert_eq!(d.sel[0], 2);
    assert_eq!(d.inc_sel(5), 0); // at the upper bound: no move
    assert_eq!(d.sel[0], 2);
    assert_eq!(d.inc_sel(-10), -2); // clamped to the first row
    assert_eq!(d.sel[0], 0);
    assert_eq!(d.inc_sel(-1), 0); // at the lower bound: no move
}

#[test]
fn inc_sel_on_empty_directory_is_inert() {
    let mut fs = Fs::new();
    let a = path(&["a"]);
    fs.add_dir(&a, vec![]);
    let mut d = DirView::new(Rect::new(0, 0, 10, 5), a);
    assert!(d.scan_dir(&fs).is_ok());
    assert_eq!(d.inc_sel(3), 0);
    assert_eq!(d.inc_sel(-3), 0);
}

#[test]
fn scan_of_unreadable_directory_reports_and_keeps_state() {
    let fs = Fs::new();
    let a = path(&["gone"]);
    let mut d = DirView::new(Rect::new(0, 0, 10, 5), a);
    assert_eq!(d.scan_dir(&fs), Err(NavError::DirectoryUnreadable));
    assert_eq!(d.entry_count(), 0);
}

#[test]
fn select_by_name_missing_name_keeps_selection() {
    let mut fs = Fs::new();
    let a = path(&["a"]);
    fs.add_dir(
        &a,
        vec![entry("x", EntryKind::File), entry("y", EntryKind::File)],
    );
    let mut d = DirView::new(Rect::new(0, 0, 10, 5), a);
    assert!(d.scan_dir(&fs).is_ok());
    d.select_by_name(String::from("y"));
    assert_eq!(d.sel[0], 1);
    d.select_by_name(String::from("vanished"));
    assert_eq!(d.sel[0], 1);
}

#[test]
fn derive_child_and_parent_round_trip() {
    let mut fs = Fs::new();
    let a = path(&["a"]);
    let ab = path(&["a", "b"]);
    fs.add_dir(
        &a,
        vec![entry("b", EntryKind::Dir), entry("c.txt", EntryKind::File)],
    );
    fs.add_dir(&ab, vec![]);
    let mut d = DirView::new(Rect::new(0, 0, 10, 5), a);
    assert!(d.scan_dir(&fs).is_ok());
    d.sort(SortOrder::Name);
    d.select_first();
    assert_eq!(d.sel_file_name(), Some(String::from("b")));
    let child = d.make_selected_dir_view().expect("child pane");
    assert_eq!(child.dir_path().parts, ab.parts);
    let mut parent = child.make_parent_dir_view().expect("parent pane");
    assert_eq!(parent.dir_path().parts, d.dir_path().parts);
    assert!(parent.scan_dir(&fs).is_ok());
    parent.select_by_name(String::from("b"));
    let sp = parent.sel_path().expect("selected path");
    assert_eq!(sp.parts, ab.parts);
}

#[test]
fn scenario_move_right_down_left() {
    let mut fs = Fs::new();
    let a = path(&["a"]);
    let ab = path(&["a", "b"]);
    fs.add_dir(
        &a,
        vec![entry("b", EntryKind::Dir), entry("c.txt", EntryKind::File)],
    );
    fs.add_dir(&ab, vec![]);
    let mut nv = Nv::new(Rect::new(0, 0, 90, 5), path(&["a"]));
    assert!(nv.startup(&fs).is_ok());
    // sorted by name: b before c.txt, first selected
    {
        let d = nv.get_dir(0).expect("focus dir");
        assert_eq!(names_in_sorted_order(d)[0], String::from("b"));
        assert_eq!(d.sel_file_name(), Some(String::from("b")));
    }
    // move right: focus becomes /a/b, whose pane is cached
    assert!(nv.dispatch(&fs, &Action::MoveRight(1)));
    assert_eq!(nv.cur_path.parts, ab.parts);
    // a vertical move in the (empty) focus directory is inert
    assert!(!nv.dispatch(&fs, &Action::MoveDown(1)));
    // the selection inside the /a pane is untouched
    {
        let d = nv.get_dir(-1).expect("parent dir");
        assert_eq!(d.sel_file_name(), Some(String::from("b")));
    }
    // move left: focus returns to /a, selection still b
    assert!(nv.dispatch(&fs, &Action::MoveLeft(1)));
    assert_eq!(nv.cur_path.parts, a.parts);
    let d = nv.get_dir(0).expect("focus dir");
    assert_eq!(d.sel_file_name(), Some(String::from("b")));
}

#[test]
fn scenario_empty_directory() {
    let mut fs = Fs::new();
    let a = path(&["a"]);
    fs.add_dir(&a, vec![]);
    let mut nv = Nv::new(Rect::new(0, 0, 90, 5), path(&["a"]));
    assert!(nv.startup(&fs).is_ok());
    {
        let d = nv.get_dir(0).expect("focus dir");
        assert_eq!(d.entry_count(), 0);
        assert_eq!(d.sel_file_name(), None);
        assert!(d.make_selected_dir_view().is_none());
        assert!(d.make_selected_view().is_none());
    }
    assert_eq!(nv.ensure_populated(&fs, 1), 0);
}

#[test]
fn scenario_filesystem_root() {
    let mut fs = Fs::new();
    let root = CanonPath::root();
    fs.add_dir(&root, vec![entry("a", EntryKind::Dir)]);
    fs.add_dir(&path(&["a"]), vec![]);
    let mut nv = Nv::new(Rect::new(0, 0, 90, 5), CanonPath::root());
    assert!(nv.startup(&fs).is_ok());
    assert_eq!(nv.ensure_populated(&fs, -1), 0);
    assert!(!nv.dispatch(&fs, &Action::MoveLeft(1)));
    assert_eq!(nv.cur_path.parts.len(), 0);
}

#[test]
fn populate_is_idempotent() {
    let mut fs = Fs::new();
    fs.add_dir(&path(&["a"]), vec![entry("b", EntryKind::Dir)]);
    fs.add_dir(&path(&["a", "b"]), vec![entry("c", EntryKind::Dir)]);
    fs.add_dir(&path(&["a", "b", "c"]), vec![]);
    let mut nv = Nv::new(Rect::new(0, 0, 90, 5), path(&["a"]));
    assert!(nv.startup(&fs).is_ok());
    let cached = nv.views.len();
    assert_eq!(nv.ensure_populated(&fs, 1), 1);
    assert_eq!(nv.views.len(), cached);
    assert_eq!(nv.ensure_populated(&fs, 1), 1);
    assert_eq!(nv.views.len(), cached);
}

#[test]
fn file_child_stops_descent() {
    let mut fs = Fs::new();
    fs.add_dir(&path(&["a"]), vec![entry("f.txt", EntryKind::File)]);
    let mut nv = Nv::new(Rect::new(0, 0, 90, 5), path(&["a"]));
    assert!(nv.startup(&fs).is_ok());
    // the preview pane for the selected file exists
    assert!(nv.get_file(1).is_some());
    // but no further level can be materialized
    assert_eq!(nv.ensure_populated(&fs, 2), 1);
}

#[test]
fn startup_fails_on_unreadable_start_directory() {
    let fs = Fs::new();
    let mut nv = Nv::new(Rect::new(0, 0, 90, 5), path(&["nowhere"]));
    assert_eq!(nv.startup(&fs), Err(NavError::DirectoryUnreadable));
}

#[test]
fn name_order_puts_prefix_first_and_is_case_sensitive() {
    let mut fs = Fs::new();
    let a = path(&["a"]);
    fs.add_dir(
        &a,
        vec![
            entry("b", EntryKind::File),
            entry("B", EntryKind::File),
            entry("", EntryKind::File),
            entry("Ba", EntryKind::File),
        ],
    );
    let mut d = DirView::new(Rect::new(0, 0, 10, 5), a);
    assert!(d.scan_dir(&fs).is_ok());
    d.sort(SortOrder::Name);
    // code-point order: "" < "B" < "Ba" < "b"
    assert_eq!(
        names_in_sorted_order(&d),
        vec![
            String::from(""),
            String::from("B"),
            String::from("Ba"),
            String::from("b")
        ]
    );
}
