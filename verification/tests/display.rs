use nv::dirview::SortOrder;
use nv::fsdata::{Entry, EntryKind, Fs};
use nv::geom::Rect;
use nv::nav::Nv;
use nv::path::CanonPath;

fn path(parts: &[&str]) -> CanonPath {
    let mut v: Vec<String> = Vec::new();
    for p in parts {
        v.push(String::from(*p));
    }
    CanonPath::from_parts(v)
}

fn entry(name: &str, kind: EntryKind) -> Entry {
    Entry::new(String::from(name), kind)
}

#[test]
fn visible_rows_window_and_flags() {
    let mut fs = Fs::new();
    let a = path(&["a"]);
    fs.add_dir(
        &a,
        vec![
            entry("d", EntryKind::File),
            entry("b", EntryKind::Dir),
            entry("a", EntryKind::File),
            entry("c", EntryKind::File),
        ],
    );
    let mut d = nv::dirview::DirView::new(Rect::new(0, 0, 10, 2), a);
    assert!(d.scan_dir(&fs).is_ok());
    d.sort(SortOrder::Name);
    d.select_first();
    assert_eq!(d.inc_sel(3), 3);
    d.ensure_sel_in_view();
    let rows = d.visible_rows();
    // height 2, cursor on the last of four rows: rows c and d show
    assert_eq!(rows.len(), 2);
    assert_eq!(rows[0].name, String::from("c"));
    assert!(!rows[0].selected);
    assert_eq!(rows[1].name, String::from("d"));
    assert!(rows[1].selected);
    assert_eq!(rows[1].kind, EntryKind::File);
}

#[test]
fn layout_places_three_panes_side_by_side() {
    let mut fs = Fs::new();
    let root = CanonPath::root();
    let a = path(&["a"]);
    let ab = path(&["a", "b"]);
    fs.add_dir(&root, vec![entry("a", EntryKind::Dir)]);
    fs.add_dir(&a, vec![entry("b", EntryKind::Dir)]);
    fs.add_dir(&ab, vec![]);
    let mut nv = Nv::new(Rect::new(0, 0, 91, 5), path(&["a"]));
    assert!(nv.startup(&fs).is_ok());
    let lay = nv.compute_layout();
    // offsets -1, 0, +1 all resolve: parent, focus, preview
    assert_eq!(lay.len(), 3);
    // pane width: (91 - 1) / 3 = 30
    assert_eq!(lay[0].0.parts, root.parts);
    assert_eq!(lay[0].1, Rect::new(0, 0, 30, 5));
    assert_eq!(lay[1].0.parts, a.parts);
    assert_eq!(lay[1].1, Rect::new(30, 0, 30, 5));
    assert_eq!(lay[2].0.parts, ab.parts);
    assert_eq!(lay[2].1, Rect::new(60, 0, 30, 5));
    // applying a rectangle moves that pane only
    nv.apply_geo(&a, Rect::new(30, 0, 30, 5));
    let d = nv.get_dir(0).expect("focus dir");
    assert_eq!(d.geo, Rect::new(30, 0, 30, 5));
}

#[test]
fn parent_pane_selects_the_child_it_came_from() {
    let mut fs = Fs::new();
    let root = CanonPath::root();
    fs.add_dir(
        &root,
        vec![
            entry("x", EntryKind::Dir),
            entry("m", EntryKind::Dir),
            entry("a", EntryKind::Dir),
        ],
    );
    fs.add_dir(&path(&["m"]), vec![]);
    let mut nv = Nv::new(Rect::new(0, 0, 90, 5), path(&["m"]));
    assert!(nv.startup(&fs).is_ok());
    // the materialized parent pane has the child's name under the cursor
    let d = nv.get_dir(-1).expect("parent dir");
    assert_eq!(d.sel_file_name(), Some(String::from("m")));
}
