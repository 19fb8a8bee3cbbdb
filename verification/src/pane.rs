use vstd::prelude::*;
use crate::dirview::DirView;
use crate::fsdata::EntryKind;
use crate::geom::Rect;
use crate::path::CanonPath;

verus! {

/// A placeholder pane for a regular file; content viewing is out of
/// the engine's scope.
pub struct FileView {
    pub geo: Rect,
    pub path: CanonPath,
    pub scroll: usize,
}

impl FileView {
    pub fn new(geo: Rect, path: CanonPath) -> (r: FileView)
        ensures
            r.geo == geo,
            r.path@ == path@,
            r.scroll == 0,
    {
        FileView { geo, path, scroll: 0 }
    }

    pub fn path(&self) -> (r: &CanonPath)
        ensures
            r@ == self.path@,
    {
        &self.path
    }

    pub fn file_name(&self) -> (r: String)
        requires
            self.path@.len() > 0,
        ensures
            r@ == self.path@.last(),
    {
        self.path.last_name()
    }

    /// A fresh, unscanned pane for the containing directory.
    pub fn make_parent_dir_view(&self) -> (r: Option<DirView>)
        ensures
            match r {
                Some(d) => {
                    &&& self.path@.len() > 0
                    &&& d.dir@ == self.path@.drop_last()
                    &&& d.geo == self.geo
                    &&& d.sel@ == seq![0usize]
                    &&& d.scroll == 0
                    &&& d.entries@.len() == 0
                    &&& d.sorted_indices@.len() == 0
                    &&& d.wf()
                },
                None => self.path@.len() == 0,
            },
    {
        match self.path.parent() {
            Some(p) => Some(DirView::new(self.geo, p)),
            None => None,
        }
    }

    pub fn get_geo(&self) -> (r: Rect)
        ensures
            r == self.geo,
    {
        self.geo
    }
}

/// One pane: a directory listing or a file placeholder.
pub enum Pane {
    Dir(DirView),
    File(FileView),
}

impl Pane {
    /// The canonical path this pane shows.
    pub open spec fn path_spec(&self) -> Seq<Seq<char>> {
        match self {
            Pane::Dir(d) => d.dir@,
            Pane::File(f) => f.path@,
        }
    }

    pub open spec fn wf(&self) -> bool {
        match self {
            Pane::Dir(d) => d.wf(),
            Pane::File(_) => true,
        }
    }

    pub open spec fn geo_spec(&self) -> Rect {
        match self {
            Pane::Dir(d) => d.geo,
            Pane::File(f) => f.geo,
        }
    }

    pub fn path(&self) -> (r: &CanonPath)
        ensures
            r@ == self.path_spec(),
    {
        match self {
            Pane::Dir(d) => &d.dir,
            Pane::File(f) => &f.path,
        }
    }

    pub fn file_name(&self) -> (r: String)
        requires
            self.path_spec().len() > 0,
        ensures
            r@ == self.path_spec().last(),
    {
        match self {
            Pane::Dir(d) => d.dir_file_name(),
            Pane::File(f) => f.file_name(),
        }
    }

    /// A fresh, unscanned pane for the containing directory.
    pub fn make_parent_dir_view(&self) -> (r: Option<DirView>)
        ensures
            match r {
                Some(d) => {
                    &&& self.path_spec().len() > 0
                    &&& d.dir@ == self.path_spec().drop_last()
                    &&& d.geo == self.geo_spec()
                    &&& d.sel@ == seq![0usize]
                    &&& d.scroll == 0
                    &&& d.entries@.len() == 0
                    &&& d.sorted_indices@.len() == 0
                    &&& d.wf()
                },
                None => self.path_spec().len() == 0,
            },
    {
        match self {
            Pane::Dir(d) => d.make_parent_dir_view(),
            Pane::File(f) => f.make_parent_dir_view(),
        }
    }

    /// Moves the pane to a new on-screen rectangle; everything else
    /// stays as it was.
    pub fn set_geo(&mut self, ngeo: Rect)
        ensures
            final(self).geo_spec() == ngeo,
            final(self).path_spec() == old(self).path_spec(),
            final(self).wf() == old(self).wf(),
            (*final(self) is Dir) == (*old(self) is Dir),
            *old(self) is Dir ==> {
                let d0 = old(self)->Dir_0;
                let d1 = final(self)->Dir_0;
                &&& d1.geo == ngeo
                &&& d1.dir == d0.dir
                &&& d1.sel == d0.sel
                &&& d1.scroll == d0.scroll
                &&& d1.entries == d0.entries
                &&& d1.sorted_indices == d0.sorted_indices
            },
            *old(self) is File ==> {
                let f0 = old(self)->File_0;
                let f1 = final(self)->File_0;
                &&& f1.geo == ngeo
                &&& f1.path == f0.path
                &&& f1.scroll == f0.scroll
            },
    {
        match self {
            Pane::Dir(d) => {
                d.geo = ngeo;
            },
            Pane::File(f) => {
                f.geo = ngeo;
            },
        }
    }

    pub fn as_dir(&self) -> (r: Option<&DirView>)
        ensures
            match r {
                Some(d) => *self is Dir && *d == self->Dir_0,
                None => !(*self is Dir),
            },
    {
        match self {
            Pane::Dir(d) => Some(d),
            Pane::File(_) => None,
        }
    }

    pub fn as_file(&self) -> (r: Option<&FileView>)
        ensures
            match r {
                Some(f) => *self is File && *f == self->File_0,
                None => !(*self is File),
            },
    {
        match self {
            Pane::File(f) => Some(f),
            Pane::Dir(_) => None,
        }
    }

    pub fn get_geo(&self) -> (r: Rect)
        ensures
            r == self.geo_spec(),
    {
        match self {
            Pane::Dir(d) => d.geo,
            Pane::File(f) => f.geo,
        }
    }
}

impl DirView {
    /// A fresh pane for the selected entry, when that entry is a
    /// regular file.
    pub fn make_selected_file_view(&self) -> (r: Option<FileView>)
        requires
            self.wf(),
        ensures
            match r {
                Some(f) => {
                    &&& self.sel_kind_spec() == Some(EntryKind::File)
                    &&& Some(f.path@) == self.sel_path_spec()
                    &&& f.geo == self.geo
                    &&& f.scroll == 0
                },
                None => self.sel_kind_spec() != Some(EntryKind::File),
            },
    {
        match self.sel_kind() {
            Some(EntryKind::File) => {
                let p = match self.sel_path() {
                    Some(p) => p,
                    None => {
                        proof {
                            assert(false);
                        }
                        CanonPath::root()
                    },
                };
                Some(FileView::new(self.geo, p))
            },
            _ => None,
        }
    }

    /// A fresh pane for the selected entry: a directory pane, a file
    /// pane, or nothing when the selection is empty or of neither
    /// kind.
    pub fn make_selected_view(&self) -> (r: Option<Pane>)
        requires
            self.wf(),
        ensures
            match r {
                Some(p) => {
                    &&& p.wf()
                    &&& Some(p.path_spec()) == self.sel_path_spec()
                    &&& p.geo_spec() == self.geo
                    &&& (p is Dir <==> self.sel_kind_spec() == Some(EntryKind::Dir))
                    &&& (p is File <==> self.sel_kind_spec() == Some(EntryKind::File))
                    &&& (p is Dir ==> {
                        let d = p->Dir_0;
                        &&& d.sel@ == seq![0usize]
                        &&& d.scroll == 0
                        &&& d.entries@.len() == 0
                        &&& d.sorted_indices@.len() == 0
                    })
                    &&& (p is File ==> p->File_0.scroll == 0)
                },
                None => self.sel_kind_spec() != Some(EntryKind::Dir) && self.sel_kind_spec()
                    != Some(EntryKind::File),
            },
    {
        match self.sel_kind() {
            Some(EntryKind::Dir) => {
                match self.make_selected_dir_view() {
                    Some(d) => Some(Pane::Dir(d)),
                    None => {
                        proof {
                            assert(false);
                        }
                        None
                    },
                }
            },
            Some(EntryKind::File) => {
                match self.make_selected_file_view() {
                    Some(f) => Some(Pane::File(f)),
                    None => {
                        proof {
                            assert(false);
                        }
                        None
                    },
                }
            },
            _ => None,
        }
    }
}

} // verus!
