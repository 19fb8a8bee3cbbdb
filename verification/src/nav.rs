use vstd::prelude::*;
use crate::dirview::DirView;
use crate::fsdata::{EntryKind, Fs};
use crate::geom::Rect;
use crate::pane::{FileView, Pane};
use crate::path::CanonPath;

verus! {

/// The actions the navigator understands; the step counts are
/// positive.
pub enum Action {
    Quit,
    MoveDown(usize),
    MoveUp(usize),
    MoveLeft(usize),
    MoveRight(usize),
}

/// Position of a key in the pane cache rows, front first.
pub open spec fn cache_lookup(rows: Seq<(CanonPath, Pane)>, key: Seq<Seq<char>>) -> Option<int>
    decreases rows.len(),
{
    if rows.len() == 0 {
        None
    } else if rows[0].0@ == key {
        Some(0)
    } else {
        match cache_lookup(rows.drop_first(), key) {
            Some(i) => Some(i + 1),
            None => None,
        }
    }
}

pub proof fn lemma_cache_lookup_properties(rows: Seq<(CanonPath, Pane)>, key: Seq<Seq<char>>)
    ensures
        match cache_lookup(rows, key) {
            Some(i) => 0 <= i < rows.len() && rows[i].0@ == key && forall|j: int|
                0 <= j < i ==> (#[trigger] rows[j]).0@ != key,
            None => forall|j: int| 0 <= j < rows.len() ==> (#[trigger] rows[j]).0@ != key,
        },
    decreases rows.len(),
{
    if rows.len() > 0 && rows[0].0@ != key {
        lemma_cache_lookup_properties(rows.drop_first(), key);
        match cache_lookup(rows.drop_first(), key) {
            Some(i) => {
                assert(rows.drop_first()[i] == rows[i + 1]);
                assert forall|j: int| 0 <= j < i + 1 implies (#[trigger] rows[j]).0@ != key by {
                    if j > 0 {
                        assert(rows.drop_first()[j - 1] == rows[j]);
                    }
                }
            },
            None => {
                assert forall|j: int| 0 <= j < rows.len() implies (#[trigger] rows[j]).0@
                    != key by {
                    if j > 0 {
                        assert(rows.drop_first()[j - 1] == rows[j]);
                    }
                }
            },
        }
    }
}

pub proof fn lemma_cache_lookup_complete(
    rows: Seq<(CanonPath, Pane)>,
    key: Seq<Seq<char>>,
    i: int,
)
    requires
        0 <= i < rows.len(),
        rows[i].0@ == key,
        forall|j: int| 0 <= j < i ==> (#[trigger] rows[j]).0@ != key,
    ensures
        cache_lookup(rows, key) == Some(i),
    decreases i,
{
    if i > 0 {
        assert forall|j: int| 0 <= j < i - 1 implies (#[trigger] rows.drop_first()[j]).0@
            != key by {
            assert(rows.drop_first()[j] == rows[j + 1]);
        }
        assert(rows.drop_first()[i - 1] == rows[i]);
        lemma_cache_lookup_complete(rows.drop_first(), key, i - 1);
    }
}

/// Appending a row leaves every present key where it was and adds
/// the new one at the end.
pub proof fn lemma_cache_lookup_push(
    rows: Seq<(CanonPath, Pane)>,
    key: Seq<Seq<char>>,
    row: (CanonPath, Pane),
)
    ensures
        cache_lookup(rows.push(row), key) == (match cache_lookup(rows, key) {
            Some(i) => Some(i),
            None => if row.0@ == key {
                Some(rows.len() as int)
            } else {
                None
            },
        }),
{
    lemma_cache_lookup_properties(rows, key);
    match cache_lookup(rows, key) {
        Some(i) => {
            assert(rows.push(row)[i] == rows[i]);
            assert forall|j: int| 0 <= j < i implies (#[trigger] rows.push(row)[j]).0@ != key by {
                assert(rows.push(row)[j] == rows[j]);
            }
            lemma_cache_lookup_complete(rows.push(row), key, i);
        },
        None => {
            if row.0@ == key {
                assert forall|j: int| 0 <= j < rows.len() implies (#[trigger] rows.push(row)[j]).0@
                    != key by {
                    assert(rows.push(row)[j] == rows[j]);
                }
                assert(rows.push(row)[rows.len() as int] == row);
                lemma_cache_lookup_complete(rows.push(row), key, rows.len() as int);
            } else {
                lemma_cache_lookup_properties(rows.push(row), key);
                if cache_lookup(rows.push(row), key) is Some {
                    let i = cache_lookup(rows.push(row), key)->Some_0;
                    assert(rows.push(row)[i].0@ == key);
                    if i < rows.len() {
                        assert(rows.push(row)[i] == rows[i]);
                    }
                    assert(false);
                }
            }
        },
    }
}

/// The canonical path `k` levels away from `cur`: positive levels
/// descend through the cached panes' selections, negative levels
/// ascend through parents.
pub open spec fn resolve_at(
    rows: Seq<(CanonPath, Pane)>,
    cur: Seq<Seq<char>>,
    k: int,
) -> Option<Seq<Seq<char>>>
    decreases (if k >= 0 {
        k
    } else {
        -k
    }),
{
    if k == 0 {
        Some(cur)
    } else if k > 0 {
        match resolve_at(rows, cur, k - 1) {
            Some(p) => match cache_lookup(rows, p) {
                Some(i) => match rows[i].1 {
                    Pane::Dir(d) => match d.sel_name_spec() {
                        Some(n) => Some(p.push(n)),
                        None => None,
                    },
                    Pane::File(_) => None,
                },
                None => None,
            },
            None => None,
        }
    } else {
        match resolve_at(rows, cur, k + 1) {
            Some(p) => if p.len() > 0 {
                Some(p.drop_last())
            } else {
                None
            },
            None => None,
        }
    }
}

/// An unresolvable level stays unresolvable further out.
pub proof fn lemma_resolve_none_fwd(
    rows: Seq<(CanonPath, Pane)>,
    cur: Seq<Seq<char>>,
    j: int,
    k: int,
)
    requires
        0 <= j <= k,
        resolve_at(rows, cur, j) is None,
    ensures
        resolve_at(rows, cur, k) is None,
    decreases k - j,
{
    if k > j {
        lemma_resolve_none_fwd(rows, cur, j, k - 1);
    }
}

pub proof fn lemma_resolve_none_bwd(
    rows: Seq<(CanonPath, Pane)>,
    cur: Seq<Seq<char>>,
    j: int,
    k: int,
)
    requires
        k <= j <= 0,
        resolve_at(rows, cur, j) is None,
    ensures
        resolve_at(rows, cur, k) is None,
    decreases j - k,
{
    if k < j {
        lemma_resolve_none_bwd(rows, cur, j, k + 1);
    }
}

/// Ascending levels never read the cache rows.
pub proof fn lemma_resolve_neg_rows_independent(
    rows1: Seq<(CanonPath, Pane)>,
    rows2: Seq<(CanonPath, Pane)>,
    cur: Seq<Seq<char>>,
    k: int,
)
    requires
        k <= 0,
    ensures
        resolve_at(rows1, cur, k) == resolve_at(rows2, cur, k),
    decreases -k,
{
    if k < 0 {
        lemma_resolve_neg_rows_independent(rows1, rows2, cur, k + 1);
    }
}

/// A resolved path's depth is the focus depth plus the level.
pub proof fn lemma_resolve_len(rows: Seq<(CanonPath, Pane)>, cur: Seq<Seq<char>>, k: int)
    requires
        resolve_at(rows, cur, k) is Some,
    ensures
        resolve_at(rows, cur, k)->Some_0.len() == cur.len() + k,
    decreases (if k >= 0 {
        k
    } else {
        -k
    }),
{
    if k > 0 {
        lemma_resolve_len(rows, cur, k - 1);
    } else if k < 0 {
        lemma_resolve_len(rows, cur, k + 1);
    }
}

/// Appending a row changes no resolution whose whole chain was
/// already cached.
pub proof fn lemma_resolve_push_fwd(
    rows: Seq<(CanonPath, Pane)>,
    cur: Seq<Seq<char>>,
    row: (CanonPath, Pane),
    k: int,
)
    requires
        0 <= k,
        forall|j: int|
            0 <= j < k ==> (#[trigger] resolve_at(rows, cur, j)) is Some && cache_lookup(
                rows,
                resolve_at(rows, cur, j)->Some_0,
            ) is Some,
    ensures
        resolve_at(rows.push(row), cur, k) == resolve_at(rows, cur, k),
    decreases k,
{
    if k > 0 {
        lemma_resolve_push_fwd(rows, cur, row, k - 1);
        assert(resolve_at(rows, cur, k - 1) is Some);
        let p = resolve_at(rows, cur, k - 1)->Some_0;
        lemma_cache_lookup_push(rows, p, row);
        let i = cache_lookup(rows, p)->Some_0;
        lemma_cache_lookup_properties(rows, p);
        assert(rows.push(row)[i] == rows[i]);
    }
}

/// A lookup sees only the keys: two row sequences with the same
/// keys place every key at the same index.
pub proof fn lemma_cache_lookup_same_keys(
    rows1: Seq<(CanonPath, Pane)>,
    rows2: Seq<(CanonPath, Pane)>,
    key: Seq<Seq<char>>,
)
    requires
        rows1.len() == rows2.len(),
        forall|i: int| 0 <= i < rows1.len() ==> (#[trigger] rows1[i]).0@ == rows2[i].0@,
    ensures
        cache_lookup(rows1, key) == cache_lookup(rows2, key),
    decreases rows1.len(),
{
    if rows1.len() > 0 {
        assert forall|i: int| 0 <= i < rows1.drop_first().len() implies (
        #[trigger] rows1.drop_first()[i]).0@ == rows2.drop_first()[i].0@ by {
            assert(rows1.drop_first()[i] == rows1[i + 1]);
            assert(rows2.drop_first()[i] == rows2[i + 1]);
        }
        lemma_cache_lookup_same_keys(rows1.drop_first(), rows2.drop_first(), key);
    }
}

/// The row the primary cursor lands on after a clamped move.
pub open spec fn clamped_row(d: DirView, delta: int) -> int {
    let n = d.entries@.len() as int;
    let t = d.sel@[0] + delta;
    if t < 0 {
        0
    } else if t > n - 1 {
        n - 1
    } else {
        t
    }
}

/// Where the scroll ends up after the minimal shift that shows the
/// cursor's row.
pub open spec fn scroll_after(row: int, scr: int, h: int) -> int {
    if row >= scr + h {
        row - h + 1
    } else if row < scr {
        row
    } else {
        scr
    }
}

/// The navigator: the pane cache, the focus path, and the fixed
/// count of panes shown side by side.
pub struct Nv {
    pub geo: Rect,
    pub views: Vec<(CanonPath, Pane)>,
    pub cur_path: CanonPath,
    pub views_shown: usize,
}

impl Nv {
    /// Well-formedness: every cached pane is well formed and keyed
    /// by its own path, keys are unique, and the focus path is
    /// cached.
    pub open spec fn wf(&self) -> bool {
        &&& self.views_shown >= 2
        &&& forall|i: int| 0 <= i < self.views@.len() ==> (#[trigger] self.views@[i]).1.wf()
        &&& forall|i: int|
            0 <= i < self.views@.len() ==> (#[trigger] self.views@[i]).1.path_spec()
                == self.views@[i].0@
        &&& forall|i: int, j: int|
            0 <= i < j < self.views@.len() ==> (#[trigger] self.views@[i]).0@ != (
            #[trigger] self.views@[j]).0@
        &&& cache_lookup(self.views@, self.cur_path@) is Some
    }

    pub open spec fn resolve(&self, k: int) -> Option<Seq<Seq<char>>> {
        resolve_at(self.views@, self.cur_path@, k)
    }

    pub open spec fn cached(&self, key: Seq<Seq<char>>) -> bool {
        cache_lookup(self.views@, key) is Some
    }

    /// The pane cached under a key; meaningful only when cached.
    pub open spec fn pane_at(&self, key: Seq<Seq<char>>) -> Pane {
        self.views@[cache_lookup(self.views@, key)->Some_0].1
    }

    /// Level `k` resolves to a cached pane.
    pub open spec fn level_ready(&self, k: int) -> bool {
        self.level_ready_from(self.cur_path@, k)
    }

    /// Level `k` away from a given focus resolves to a cached pane.
    pub open spec fn level_ready_from(&self, cur: Seq<Seq<char>>, k: int) -> bool {
        match resolve_at(self.views@, cur, k) {
            Some(p) => self.cached(p),
            None => false,
        }
    }

    /// The pane a level resolves to, when it is ready.
    pub open spec fn view_at_spec(&self, k: int) -> Option<Pane> {
        match self.resolve(k) {
            Some(p) => if self.cached(p) {
                Some(self.pane_at(p))
            } else {
                None
            },
            None => None,
        }
    }

    /// A navigator starting at one cached, unscanned pane for the
    /// given directory.
    pub fn new(geo: Rect, dir: CanonPath) -> (r: Nv)
        ensures
            r.wf(),
            r.geo == geo,
            r.cur_path@ == dir@,
            r.views_shown == 3,
            r.views@.len() == 1,
            r.views@[0].0@ == dir@,
            r.views@[0].1 is Dir,
            r.views@[0].1->Dir_0.dir@ == dir@,
            r.views@[0].1->Dir_0.entries@.len() == 0,
            r.views@[0].1->Dir_0.scroll == 0,
            r.views@[0].1->Dir_0.geo == (Rect { x: 0, y: 0, w: geo.w, h: geo.h }),
    {
        let key = dir.duplicate();
        let cur = dir.duplicate();
        let dv = DirView::new(Rect::new(0, 0, geo.w, geo.h), dir);
        let mut views: Vec<(CanonPath, Pane)> = Vec::new();
        views.push((key, Pane::Dir(dv)));
        let r = Nv { geo, views, cur_path: cur, views_shown: 3 };
        proof {
            assert(r.views@[0].0@ == r.cur_path@);
            assert(cache_lookup(r.views@, r.cur_path@) == Some(0int));
        }
        r
    }

    /// Index of a cached pane by path.
    fn find_pane(&self, p: &CanonPath) -> (r: Option<usize>)
        ensures
            match r {
                Some(i) => cache_lookup(self.views@, p@) == Some(i as int),
                None => cache_lookup(self.views@, p@) is None,
            },
    {
        let mut i: usize = 0;
        while i < self.views.len()
            invariant
                i <= self.views@.len(),
                forall|j: int| 0 <= j < i as int ==> (#[trigger] self.views@[j]).0@ != p@,
            decreases self.views@.len() - i,
        {
            if self.views[i].0.path_eq(p) {
                proof {
                    lemma_cache_lookup_complete(self.views@, p@, i as int);
                }
                return Some(i);
            }
            i += 1;
        }
        proof {
            lemma_cache_lookup_properties(self.views@, p@);
            if cache_lookup(self.views@, p@) is Some {
                let k = cache_lookup(self.views@, p@)->Some_0;
                assert(self.views@[k].0@ == p@);
                assert(false);
            }
        }
        None
    }

    /// Resolves the canonical path a signed number of levels away
    /// from the focus, reading the cache only.
    pub fn traverse_dirs(&self, lvl_ofs: isize) -> (r: Option<CanonPath>)
        requires
            self.wf(),
        ensures
            match r {
                Some(p) => self.resolve(lvl_ofs as int) == Some(p@),
                None => self.resolve(lvl_ofs as int) is None,
            },
    {
        let mut path = self.cur_path.duplicate();
        if lvl_ofs >= 0 {
            let mut i: isize = 0;
            while i < lvl_ofs
                invariant
                    self.wf(),
                    0 <= i <= lvl_ofs,
                    self.resolve(i as int) == Some(path@),
                decreases lvl_ofs - i,
            {
                let step = match self.find_pane(&path) {
                    None => None,
                    Some(idx) => {
                        proof {
                            lemma_cache_lookup_properties(self.views@, path@);
                        }
                        match &self.views[idx].1 {
                            Pane::Dir(d) => match d.sel_file_name() {
                                Some(nm) => Some(path.child(&nm)),
                                None => None,
                            },
                            Pane::File(_) => None,
                        }
                    },
                };
                match step {
                    Some(next) => {
                        path = next;
                    },
                    None => {
                        proof {
                            assert(self.resolve(i as int + 1) is None);
                            lemma_resolve_none_fwd(
                                self.views@,
                                self.cur_path@,
                                i as int + 1,
                                lvl_ofs as int,
                            );
                        }
                        return None;
                    },
                }
                i += 1;
            }
            Some(path)
        } else {
            let mut i: isize = 0;
            while i > lvl_ofs
                invariant
                    self.wf(),
                    lvl_ofs <= i <= 0,
                    self.resolve(i as int) == Some(path@),
                decreases i - lvl_ofs,
            {
                match path.parent() {
                    Some(pp) => {
                        path = pp;
                    },
                    None => {
                        proof {
                            assert(self.resolve(i as int - 1) is None);
                            lemma_resolve_none_bwd(
                                self.views@,
                                self.cur_path@,
                                i as int - 1,
                                lvl_ofs as int,
                            );
                        }
                        return None;
                    },
                }
                i -= 1;
            }
            Some(path)
        }
    }

    /// The cached pane a signed level offset resolves to.
    pub fn get_view(&self, lvl_ofs: isize) -> (r: Option<&Pane>)
        requires
            self.wf(),
        ensures
            match r {
                Some(v) => self.view_at_spec(lvl_ofs as int) == Some(*v),
                None => self.view_at_spec(lvl_ofs as int) is None,
            },
    {
        match self.traverse_dirs(lvl_ofs) {
            Some(p) => match self.find_pane(&p) {
                Some(i) => {
                    proof {
                        lemma_cache_lookup_properties(self.views@, p@);
                    }
                    Some(&self.views[i].1)
                },
                None => None,
            },
            None => None,
        }
    }

    /// The cached directory pane at a level offset, when the level
    /// resolves to a directory pane.
    pub fn get_dir(&self, lvl_ofs: isize) -> (r: Option<&DirView>)
        requires
            self.wf(),
        ensures
            match r {
                Some(d) => {
                    &&& self.view_at_spec(lvl_ofs as int) is Some
                    &&& self.view_at_spec(lvl_ofs as int)->Some_0 is Dir
                    &&& *d == self.view_at_spec(lvl_ofs as int)->Some_0->Dir_0
                },
                None => !(self.view_at_spec(lvl_ofs as int) matches Some(p) && p is Dir),
            },
    {
        match self.get_view(lvl_ofs) {
            Some(v) => v.as_dir(),
            None => None,
        }
    }

    /// What one horizontal move with step count `k` did, witnessed
    /// by the signed number of levels `st` actually stepped: the
    /// population reached every level up to `st` and was blocked
    /// just past it when short, fresh panes look as lazily created
    /// panes do, the focus moved to the level-`st` path exactly when
    /// `st` is nonzero, and a zero step changed nothing.
    pub open spec fn horizontal_outcome(
        pre: Nv,
        post: Nv,
        fs: &Fs,
        k: int,
        redraw: bool,
        st: int,
    ) -> bool {
        let cur0 = pre.cur_path@;
        &&& redraw == (st != 0)
        &&& st == 0 ==> post == pre
        &&& (k > 0 ==> {
            &&& 0 <= st <= k
            &&& forall|l: int| 1 <= l <= st ==> post.level_ready_from(cur0, l)
            &&& forall|l: int| 1 <= l <= st ==> Self::fwd_fresh_from(pre, post, cur0, l)
            &&& st < k ==> post.fwd_blocked_from(fs, cur0, st + 1)
        })
        &&& (k < 0 ==> {
            &&& k <= st <= 0
            &&& forall|l: int| st <= l <= -1 ==> post.level_ready_from(cur0, l)
            &&& forall|l: int| st <= l <= -1 ==> Self::bwd_fresh_from(pre, post, cur0, l)
            &&& st > k ==> post.bwd_blocked_from(fs, cur0, st - 1)
        })
        &&& st != 0 ==> resolve_at(post.views@, cur0, st) == Some(post.cur_path@)
        &&& st == 0 ==> post.cur_path@ == cur0
    }

    /// One vertical move of the focused directory pane's cursor by
    /// `delta` rows, followed by repopulation of the preview level
    /// when the cursor moved. A focus that is not a directory pane,
    /// an empty directory, or an entry count beyond the step range
    /// moves nothing.
    fn move_vertical(&mut self, fs: &Fs, delta: isize) -> (redraw: bool)
        requires
            old(self).wf(),
        ensures
            final(self).wf(),
            final(self).geo == old(self).geo,
            final(self).views_shown == old(self).views_shown,
            final(self).cur_path@ == old(self).cur_path@,
            ({
                let fi = cache_lookup(old(self).views@, old(self).cur_path@)->Some_0;
                let fpane = old(self).views@[fi].1;
                &&& !(fpane is Dir) ==> final(self).views@ == old(self).views@ && !redraw
                &&& fpane is Dir ==> {
                    let d0 = fpane->Dir_0;
                    let n_e = d0.entries@.len();
                    if n_e == 0 || n_e > isize::MAX as nat {
                        final(self).views@ == old(self).views@ && !redraw
                    } else {
                        let target = clamped_row(d0, delta as int);
                        let moved = target - d0.sel@[0];
                        &&& redraw == (moved != 0)
                        &&& moved == 0 ==> final(self).views@ == old(self).views@
                        &&& moved != 0 ==> {
                            &&& final(self).views@.len() >= old(self).views@.len()
                            &&& forall|i: int|
                                0 <= i < old(self).views@.len() && i != fi
                                    ==> final(self).views@[i] == old(self).views@[i]
                            &&& final(self).views@[fi].0 == old(self).views@[fi].0
                            &&& final(self).views@[fi].1 is Dir
                            &&& {
                                let d1 = final(self).views@[fi].1->Dir_0;
                                &&& d1.dir@ == d0.dir@
                                &&& d1.entries@ == d0.entries@
                                &&& d1.sorted_indices@ == d0.sorted_indices@
                                &&& d1.sel@ == d0.sel@.update(0, target as usize)
                                &&& d1.scroll == scroll_after(target, d0.scroll as int, d0.geo.h as int)
                                &&& d0.geo.h > 0 ==> d1.scroll <= target < d1.scroll + d0.geo.h
                            }
                            &&& forall|j: int|
                                old(self).views@.len() <= j < final(self).views@.len()
                                    ==> Self::populated_pane((#[trigger] final(self).views@[j]).1, fs)
                            &&& (final(self).level_ready(1) && Self::fwd_fresh_at(
                                *old(self),
                                *final(self),
                                1,
                            )) || final(self).fwd_blocked(fs, 1)
                        }
                    }
                }
            }),
    {
        let fidx = match self.find_pane(&self.cur_path) {
            Some(i) => i,
            None => {
                proof {
                    assert(false);
                }
                return false;
            },
        };
        proof {
            lemma_cache_lookup_properties(self.views@, self.cur_path@);
        }
        let ghost rows0 = self.views@;
        let moved: isize = match &mut self.views[fidx].1 {
            Pane::Dir(dv) => {
                if dv.entry_count() == 0 || dv.entry_count() > (isize::MAX as usize) {
                    0
                } else {
                    let m = dv.inc_sel(delta);
                    if m != 0 {
                        dv.ensure_sel_in_view();
                    }
                    m
                }
            },
            Pane::File(_) => 0,
        };
        proof {
            assert(self.views@.len() == rows0.len());
            assert forall|i: int| 0 <= i < self.views@.len() implies (
            #[trigger] self.views@[i]).0@ == rows0[i].0@ by {
                if i != fidx as int {
                    assert(self.views@[i] == rows0[i]);
                }
            }
            assert forall|i: int| 0 <= i < self.views@.len() implies (
            #[trigger] self.views@[i]).1.wf() && self.views@[i].1.path_spec()
                == self.views@[i].0@ by {
                if i != fidx as int {
                    assert(self.views@[i] == rows0[i]);
                }
            }
            assert forall|k: Seq<Seq<char>>| true implies #[trigger] cache_lookup(
                self.views@,
                k,
            ) == cache_lookup(rows0, k) by {
                lemma_cache_lookup_same_keys(self.views@, rows0, k);
            }
            if moved == 0 {
                assert(self.views@ =~= rows0);
            }
        }
        if moved != 0 {
            let ghost mid = *self;
            let steps_v = self.ensure_populated(fs, 1);
            proof {
                assert(mid.views@.is_prefix_of(self.views@));
                assert forall|i: int| 0 <= i < mid.views@.len() implies self.views@[i]
                    == mid.views@[i] by {
                    assert(self.views@.subrange(0, mid.views@.len() as int)[i]
                        == self.views@[i]);
                }
                assert forall|i: int|
                    0 <= i < rows0.len() && i != fidx as int implies self.views@[i]
                    == rows0[i] by {
                    assert(mid.views@[i] == rows0[i]);
                    assert(self.views@[i] == mid.views@[i]);
                }
                assert(self.views@[fidx as int] == mid.views@[fidx as int]);
                if steps_v == 0 {
                    assert(self.fwd_blocked(fs, 1));
                } else {
                    assert(self.level_ready(1));
                    assert(Self::fwd_fresh_at(mid, *self, 1));
                    // the pre state has the keys the old state had
                    assert(Self::fwd_fresh_at(*old(self), *self, 1)) by {
                        if self.resolve(1) is Some {
                            let pth = self.resolve(1)->Some_0;
                            assert(cache_lookup(mid.views@, pth) == cache_lookup(rows0, pth));
                        }
                    }
                }
            }
            true
        } else {
            false
        }
    }

    /// One horizontal move: populate `k` levels toward the target
    /// and move the focus to the farthest level actually reached; a
    /// zero step count changes nothing.
    #[verifier::rlimit(80)]
    fn move_horizontal(&mut self, fs: &Fs, k: isize) -> (redraw: bool)
        requires
            old(self).wf(),
        ensures
            final(self).wf(),
            final(self).geo == old(self).geo,
            final(self).views_shown == old(self).views_shown,
            old(self).views@.is_prefix_of(final(self).views@),
            forall|j: int|
                old(self).views@.len() <= j < final(self).views@.len() ==> Self::populated_pane(
                    (#[trigger] final(self).views@[j]).1,
                    fs,
                ),
            exists|st: int|
                #[trigger] Self::horizontal_outcome(
                    *old(self),
                    *final(self),
                    fs,
                    k as int,
                    redraw,
                    st,
                ),
    {
        if k == 0 {
            proof {
                assert(Self::horizontal_outcome(*old(self), *self, fs, k as int, false, 0));
            }
            return false;
        }
        let steps = self.ensure_populated(fs, k);
        if steps != 0 {
            let p = match self.traverse_dirs(steps) {
                Some(p) => p,
                None => {
                    proof {
                        if steps > 0 {
                            assert(self.level_ready(steps as int));
                        } else {
                            assert(self.level_ready(steps as int));
                        }
                        assert(false);
                    }
                    return false;
                },
            };
            let ghost mid = *self;
            self.cur_path = p;
            proof {
                assert(self.level_ready(0) == mid.level_ready(steps as int)) by {
                    assert(self.resolve(0) == Some(self.cur_path@));
                    assert(mid.resolve(steps as int) == Some(self.cur_path@));
                }
                assert(cache_lookup(self.views@, self.cur_path@) is Some);
                assert(resolve_at(self.views@, old(self).cur_path@, steps as int) == Some(
                    self.cur_path@,
                ));
                // the population facts, restated from the old focus
                let cur0 = old(self).cur_path@;
                if k > 0 {
                    assert forall|l: int|
                        1 <= l <= steps as int implies self.level_ready_from(cur0, l) by {
                        assert(mid.level_ready(l));
                    }
                    assert forall|l: int|
                        1 <= l <= steps as int implies Nv::fwd_fresh_from(
                        *old(self),
                        *self,
                        cur0,
                        l,
                    ) by {
                        assert(mid.level_ready(l));
                        assert(Nv::fwd_fresh_at(*old(self), mid, l));
                    }
                    if (steps as int) < k {
                        assert(mid.fwd_blocked(fs, steps as int + 1));
                        assert(self.fwd_blocked_from(fs, cur0, steps as int + 1));
                    }
                } else {
                    assert forall|l: int|
                        steps as int <= l <= -1 implies self.level_ready_from(cur0, l) by {
                        assert(mid.level_ready(l));
                    }
                    assert forall|l: int|
                        steps as int <= l <= -1 implies Nv::bwd_fresh_from(
                        *old(self),
                        *self,
                        cur0,
                        l,
                    ) by {
                        assert(mid.level_ready(l));
                        assert(Nv::bwd_fresh_at(*old(self), mid, l));
                    }
                    if (steps as int) > k {
                        assert(mid.bwd_blocked(fs, steps as int - 1));
                        assert(self.bwd_blocked_from(fs, cur0, steps as int - 1));
                    }
                }
                assert(Self::horizontal_outcome(
                    *old(self),
                    *self,
                    fs,
                    k as int,
                    true,
                    steps as int,
                ));
            }
            true
        } else {
            proof {
                assert(Self::horizontal_outcome(*old(self), *self, fs, k as int, false, 0));
            }
            false
        }
    }

    /// Dispatches one user action, as the event loop does between
    /// reads: vertical moves drive the focused directory pane's
    /// cursor and repopulate the preview level, horizontal moves
    /// repopulate toward the target level and move the focus to the
    /// farthest level actually reached. The result says whether
    /// anything changed that needs a redraw.
    pub fn dispatch(&mut self, fs: &Fs, action: &Action) -> (redraw: bool)
        requires
            old(self).wf(),
            match *action {
                Action::MoveDown(n) => n <= isize::MAX as usize,
                Action::MoveUp(n) => n <= isize::MAX as usize,
                Action::MoveLeft(n) => n <= isize::MAX as usize,
                Action::MoveRight(n) => n <= isize::MAX as usize,
                Action::Quit => true,
            },
        ensures
            final(self).wf(),
            final(self).geo == old(self).geo,
            final(self).views_shown == old(self).views_shown,
            *action is Quit ==> *final(self) == *old(self) && !redraw,
            (*action is MoveDown || *action is MoveUp) ==> {
                let delta = match *action {
                    Action::MoveDown(n) => n as int,
                    Action::MoveUp(n) => -(n as int),
                    _ => 0int,
                };
                let fi = cache_lookup(old(self).views@, old(self).cur_path@)->Some_0;
                let fpane = old(self).views@[fi].1;
                &&& final(self).cur_path@ == old(self).cur_path@
                &&& !(fpane is Dir) ==> final(self).views@ == old(self).views@ && !redraw
                &&& fpane is Dir ==> {
                    let d0 = fpane->Dir_0;
                    let n_e = d0.entries@.len();
                    if n_e == 0 || n_e > isize::MAX as nat {
                        final(self).views@ == old(self).views@ && !redraw
                    } else {
                        let target = clamped_row(d0, delta);
                        let moved = target - d0.sel@[0];
                        &&& redraw == (moved != 0)
                        &&& moved == 0 ==> final(self).views@ == old(self).views@
                        &&& moved != 0 ==> {
                            &&& final(self).views@.len() >= old(self).views@.len()
                            &&& forall|i: int|
                                0 <= i < old(self).views@.len() && i != fi
                                    ==> final(self).views@[i] == old(self).views@[i]
                            &&& final(self).views@[fi].0 == old(self).views@[fi].0
                            &&& final(self).views@[fi].1 is Dir
                            &&& {
                                let d1 = final(self).views@[fi].1->Dir_0;
                                &&& d1.dir@ == d0.dir@
                                &&& d1.entries@ == d0.entries@
                                &&& d1.sorted_indices@ == d0.sorted_indices@
                                &&& d1.sel@ == d0.sel@.update(0, target as usize)
                                &&& d1.scroll == scroll_after(target, d0.scroll as int, d0.geo.h as int)
                                &&& d0.geo.h > 0 ==> d1.scroll <= target < d1.scroll + d0.geo.h
                            }
                            &&& forall|j: int|
                                old(self).views@.len() <= j < final(self).views@.len()
                                    ==> Self::populated_pane((#[trigger] final(self).views@[j]).1, fs)
                            &&& (final(self).level_ready(1) && Self::fwd_fresh_at(
                                *old(self),
                                *final(self),
                                1,
                            )) || final(self).fwd_blocked(fs, 1)
                        }
                    }
                }
            },
            (*action is MoveLeft || *action is MoveRight) ==> old(self).views@.is_prefix_of(
                final(self).views@,
            ) && (forall|j: int|
                old(self).views@.len() <= j < final(self).views@.len() ==> Self::populated_pane(
                    (#[trigger] final(self).views@[j]).1,
                    fs,
                )),
            *action matches Action::MoveRight(n) ==> exists|st: int|
                #[trigger] Self::horizontal_outcome(
                    *old(self),
                    *final(self),
                    fs,
                    n as int,
                    redraw,
                    st,
                ),
            *action matches Action::MoveLeft(n) ==> exists|st: int|
                #[trigger] Self::horizontal_outcome(
                    *old(self),
                    *final(self),
                    fs,
                    -(n as int),
                    redraw,
                    st,
                ),
    {
        match action {
            Action::Quit => false,
            Action::MoveDown(n) => self.move_vertical(fs, *n as isize),
            Action::MoveUp(n) => self.move_vertical(fs, -(*n as isize)),
            Action::MoveRight(n) => {
                let r = self.move_horizontal(fs, *n as isize);
                proof {
                    assert((*n as isize) as int == *n as int);
                    let st = choose|st: int|
                        #[trigger] Self::horizontal_outcome(
                            *old(self),
                            *self,
                            fs,
                            (*n as isize) as int,
                            r,
                            st,
                        );
                    assert(Self::horizontal_outcome(*old(self), *self, fs, *n as int, r, st));
                }
                r
            },
            Action::MoveLeft(n) => {
                let r = self.move_horizontal(fs, -(*n as isize));
                proof {
                    assert((-(*n as isize)) as int == -(*n as int));
                    let st = choose|st: int|
                        #[trigger] Self::horizontal_outcome(
                            *old(self),
                            *self,
                            fs,
                            (-(*n as isize)) as int,
                            r,
                            st,
                        );
                    assert(Self::horizontal_outcome(*old(self), *self, fs, -(*n as int), r, st));
                }
                r
            },
        }
    }

    /// First population after construction: scans, sorts and selects
    /// in the focused directory pane, then materializes the preview
    /// level and the visible ancestor levels. Failure to read the
    /// starting directory is the one startup error.
    pub fn startup(&mut self, fs: &Fs) -> (r: Result<(), crate::dirview::NavError>)
        requires
            old(self).wf(),
            old(self).pane_at(old(self).cur_path@) is Dir,
        ensures
            final(self).wf(),
            final(self).geo == old(self).geo,
            final(self).views_shown == old(self).views_shown,
            final(self).cur_path@ == old(self).cur_path@,
            match r {
                Err(e) => {
                    &&& e == crate::dirview::NavError::DirectoryUnreadable
                    &&& fs.listing_of(old(self).cur_path@) is None
                    &&& final(self).views@ == old(self).views@
                },
                Ok(()) => {
                    let fi = cache_lookup(old(self).views@, old(self).cur_path@)->Some_0;
                    &&& fs.listing_of(old(self).cur_path@) is Some
                    &&& final(self).views@.len() >= old(self).views@.len()
                    &&& final(self).views@[fi].1 is Dir
                    &&& {
                        let d1 = final(self).views@[fi].1->Dir_0;
                        &&& fs.listing_of(old(self).cur_path@) == Some(d1.entries@)
                        &&& d1.entries@.len() > 0 ==> d1.sel@[0] == 0
                        &&& forall|a: int, b: int|
                            0 <= a < b < d1.sorted_indices@.len() ==> crate::dirview::entry_key_lt(
                                d1.entries@,
                                d1.sorted_indices@[a] as int,
                                d1.sorted_indices@[b] as int,
                            )
                    }
                    &&& forall|j: int|
                        old(self).views@.len() <= j < final(self).views@.len()
                            ==> Self::populated_pane((#[trigger] final(self).views@[j]).1, fs)
                },
            },
    {
        let fidx = match self.find_pane(&self.cur_path) {
            Some(i) => i,
            None => {
                proof {
                    assert(false);
                }
                return Err(crate::dirview::NavError::DirectoryUnreadable);
            },
        };
        proof {
            lemma_cache_lookup_properties(self.views@, self.cur_path@);
        }
        let ghost rows0 = self.views@;
        let res: Result<(), crate::dirview::NavError> = match &mut self.views[fidx].1 {
            Pane::Dir(dv) => {
                match dv.scan_dir(fs) {
                    Err(e) => Err(e),
                    Ok(()) => {
                        dv.sort(crate::dirview::SortOrder::Name);
                        dv.select_first();
                        Ok(())
                    },
                }
            },
            Pane::File(_) => {
                proof {
                    assert(false);
                }
                Err(crate::dirview::NavError::DirectoryUnreadable)
            },
        };
        proof {
            assert(self.views@.len() == rows0.len());
            assert forall|i: int| 0 <= i < self.views@.len() implies (
            #[trigger] self.views@[i]).0@ == rows0[i].0@ by {
                if i != fidx as int {
                    assert(self.views@[i] == rows0[i]);
                }
            }
            assert forall|i: int| 0 <= i < self.views@.len() implies (
            #[trigger] self.views@[i]).1.wf() && self.views@[i].1.path_spec()
                == self.views@[i].0@ by {
                if i != fidx as int {
                    assert(self.views@[i] == rows0[i]);
                }
            }
            assert forall|k: Seq<Seq<char>>| true implies #[trigger] cache_lookup(
                self.views@,
                k,
            ) == cache_lookup(rows0, k) by {
                lemma_cache_lookup_same_keys(self.views@, rows0, k);
            }
            if res is Err {
                assert(self.views@ =~= rows0);
            }
        }
        if res.is_err() {
            return res;
        }
        let ghost mid = *self;
        self.ensure_populated(fs, 1);
        proof {
            assert forall|i: int| 0 <= i < mid.views@.len() implies self.views@[i]
                == mid.views@[i] by {
                assert(self.views@.subrange(0, mid.views@.len() as int)[i] == self.views@[i]);
            }
        }
        let ghost mid2 = *self;
        let shown = self.views_shown;
        let back_usize = shown - 2;
        let back: isize = if back_usize > (isize::MAX as usize) {
            isize::MAX
        } else {
            back_usize as isize
        };
        self.ensure_populated(fs, -back);
        proof {
            assert forall|i: int| 0 <= i < mid2.views@.len() implies self.views@[i]
                == mid2.views@[i] by {
                assert(self.views@.subrange(0, mid2.views@.len() as int)[i] == self.views@[i]);
            }
            assert(self.views@[fidx as int] == mid2.views@[fidx as int]);
            assert(mid2.views@[fidx as int] == mid.views@[fidx as int]);
            assert(self.views@[fidx as int].1 is Dir);
            assert(rows0[fidx as int].1.path_spec() == rows0[fidx as int].0@);
            assert(rows0[fidx as int].0@ == old(self).cur_path@);
            assert forall|j: int|
                rows0.len() <= j < self.views@.len() implies Self::populated_pane(
                (#[trigger] self.views@[j]).1,
                fs,
            ) by {
                if j < mid2.views@.len() {
                    assert(self.views@[j] == mid2.views@[j]);
                    assert(Self::populated_pane(mid2.views@[j].1, fs));
                }
            }
        }
        Ok(())
    }

    /// Level `i` (positive) cannot be materialized as things
    /// stand: it does not resolve, or the pane it would come from
    /// selects an entry that is neither a directory with a readable
    /// listing nor a regular file.
    pub open spec fn fwd_blocked(&self, fs: &Fs, i: int) -> bool {
        self.fwd_blocked_from(fs, self.cur_path@, i)
    }

    /// The same, stated from an explicit focus path.
    pub open spec fn fwd_blocked_from(&self, fs: &Fs, cur: Seq<Seq<char>>, i: int) -> bool {
        match resolve_at(self.views@, cur, i) {
            None => true,
            Some(p) => !self.cached(p) && match resolve_at(self.views@, cur, i - 1) {
                Some(q) => !self.cached(q) || match self.pane_at(q) {
                    Pane::Dir(d) => match d.sel_kind_spec() {
                        Some(EntryKind::Dir) => fs.listing_of(p) is None,
                        Some(EntryKind::File) => false,
                        _ => true,
                    },
                    Pane::File(_) => true,
                },
                None => true,
            },
        }
    }

    /// Level `i` (negative) cannot be materialized: the root was
    /// reached, or the parent directory cannot be read.
    pub open spec fn bwd_blocked(&self, fs: &Fs, i: int) -> bool {
        self.bwd_blocked_from(fs, self.cur_path@, i)
    }

    /// The same, stated from an explicit focus path.
    pub open spec fn bwd_blocked_from(&self, fs: &Fs, cur: Seq<Seq<char>>, i: int) -> bool {
        match resolve_at(self.views@, cur, i) {
            None => true,
            Some(p) => !self.cached(p) && fs.listing_of(p) is None,
        }
    }

    /// What every lazily created pane looks like: a directory pane
    /// holds the snapshot's listing of its directory under a
    /// name-sorted permutation; a file pane starts unscrolled.
    pub open spec fn populated_pane(p: Pane, fs: &Fs) -> bool {
        match p {
            Pane::Dir(d) => {
                &&& fs.listing_of(d.dir@) == Some(d.entries@)
                &&& forall|a: int, b: int|
                    0 <= a < b < d.sorted_indices@.len() ==> crate::dirview::entry_key_lt(
                        d.entries@,
                        d.sorted_indices@[a] as int,
                        d.sorted_indices@[b] as int,
                    )
            },
            Pane::File(f) => f.scroll == 0,
        }
    }

    /// What a pane freshly materialized while descending looks
    /// like, stated of level `l` of the post state: its variant is
    /// the kind of the entry selected one level in, a directory pane
    /// starts with its first sorted row selected and no scroll, and
    /// a file pane starts unscrolled. A level whose pane the pre
    /// state already cached is left alone.
    pub open spec fn fwd_fresh_at(pre: Nv, post: Nv, l: int) -> bool {
        Self::fwd_fresh_from(pre, post, post.cur_path@, l)
    }

    /// The same, stated from an explicit focus path.
    pub open spec fn fwd_fresh_from(pre: Nv, post: Nv, cur: Seq<Seq<char>>, l: int) -> bool {
        match resolve_at(post.views@, cur, l) {
            Some(p) => pre.cached(p) || (match resolve_at(post.views@, cur, l - 1) {
                Some(q) => post.cached(q) && (match post.pane_at(q) {
                    Pane::Dir(par) => {
                        &&& (post.pane_at(p) is Dir <==> par.sel_kind_spec() == Some(
                            EntryKind::Dir,
                        ))
                        &&& (post.pane_at(p) is File <==> par.sel_kind_spec() == Some(
                            EntryKind::File,
                        ))
                        &&& match post.pane_at(p) {
                            Pane::Dir(c) => {
                                &&& c.sel@ == seq![0usize]
                                &&& c.scroll == 0
                                &&& c.geo == par.geo
                            },
                            Pane::File(f) => f.scroll == 0,
                        }
                    },
                    Pane::File(_) => false,
                }),
                None => false,
            }),
            None => false,
        }
    }

    /// What a parent pane freshly materialized while ascending looks
    /// like, stated of level `l` of the post state: a directory pane
    /// whose primary cursor sits on the first sorted row bearing the
    /// child's file name when that name occurs (and otherwise still
    /// names the first scanned entry), scrolled minimally from the
    /// top so that the cursor's row is visible.
    pub open spec fn bwd_fresh_at(pre: Nv, post: Nv, l: int) -> bool {
        Self::bwd_fresh_from(pre, post, post.cur_path@, l)
    }

    /// The same, stated from an explicit focus path.
    pub open spec fn bwd_fresh_from(pre: Nv, post: Nv, cur: Seq<Seq<char>>, l: int) -> bool {
        match resolve_at(post.views@, cur, l) {
            Some(p) => pre.cached(p) || (match post.pane_at(p) {
                Pane::Dir(d) => {
                    &&& resolve_at(post.views@, cur, l + 1) is Some
                    &&& ({
                        let cname = resolve_at(post.views@, cur, l + 1)->Some_0.last();
                        let m = DirView::first_match(d.entries@, d.sorted_indices@, cname, 0);
                        &&& d.sel@.len() == 1
                        &&& (match m {
                            Some(q) => d.sel@ == seq![q as usize],
                            None => {
                                &&& d.entries@.len() > 0 ==> d.sorted_indices@[d.sel@[0] as int]
                                    == 0
                                &&& d.entries@.len() == 0 ==> d.sel@ == seq![0usize]
                            },
                        })
                        &&& d.scroll == scroll_after(d.sel@[0] as int, 0, d.geo.h as int)
                        &&& (d.geo.h > 0 ==> d.scroll <= d.sel@[0] < d.scroll + d.geo.h)
                    })
                },
                Pane::File(_) => false,
            }),
            None => false,
        }
    }

    /// Makes every pane between the focus and `ofs` levels away
    /// exist in the cache, materializing missing ones from the
    /// snapshot, and reports how many levels are actually reachable.
    /// A second call over an already-satisfied range changes
    /// nothing and reports the full offset.
    pub fn ensure_populated(&mut self, fs: &Fs, ofs: isize) -> (steps: isize)
        requires
            old(self).wf(),
        ensures
            final(self).wf(),
            final(self).geo == old(self).geo,
            final(self).cur_path@ == old(self).cur_path@,
            final(self).views_shown == old(self).views_shown,
            old(self).views@.is_prefix_of(final(self).views@),
            forall|j: int|
                old(self).views@.len() <= j < final(self).views@.len() ==> Self::populated_pane(
                    (#[trigger] final(self).views@[j]).1,
                    fs,
                ),
            ofs == 0 ==> steps == 0 && *final(self) == *old(self),
            steps == 0 ==> *final(self) == *old(self),
            ofs > 0 ==> {
                &&& 0 <= steps <= ofs
                &&& forall|l: int| 1 <= l <= steps ==> final(self).level_ready(l)
                &&& forall|l: int|
                    1 <= l <= steps ==> Self::fwd_fresh_at(*old(self), *final(self), l)
                &&& forall|j: int|
                    old(self).views@.len() <= j < final(self).views@.len()
                        ==> (#[trigger] final(self).views@[j]).0@.len()
                            > final(self).cur_path@.len()
                &&& steps < ofs ==> final(self).fwd_blocked(fs, steps + 1)
                &&& (forall|l: int| 1 <= l <= ofs ==> old(self).level_ready(l)) ==> steps == ofs
                    && *final(self) == *old(self)
            },
            ofs < 0 ==> {
                &&& ofs <= steps <= 0
                &&& forall|l: int| steps <= l <= -1 ==> final(self).level_ready(l)
                &&& forall|l: int|
                    steps <= l <= -1 ==> Self::bwd_fresh_at(*old(self), *final(self), l)
                &&& forall|j: int|
                    old(self).views@.len() <= j < final(self).views@.len()
                        ==> (#[trigger] final(self).views@[j]).0@.len()
                            < final(self).cur_path@.len()
                &&& steps > ofs ==> final(self).bwd_blocked(fs, steps - 1)
                &&& (forall|l: int| ofs <= l <= -1 ==> old(self).level_ready(l)) ==> steps == ofs
                    && *final(self) == *old(self)
            },
    {
        if ofs > 0 {
            let mut done: isize = 0;
            while done < ofs
                invariant
                    self.wf(),
                    ofs > 0,
                    0 <= done <= ofs,
                    self.geo == old(self).geo,
                    self.cur_path == old(self).cur_path,
                    self.views_shown == old(self).views_shown,
                    old(self).views@.is_prefix_of(self.views@),
                    forall|j: int|
                        old(self).views@.len() <= j < self.views@.len() ==> Self::populated_pane(
                            (#[trigger] self.views@[j]).1,
                            fs,
                        ),
                    forall|l: int| 1 <= l <= done ==> self.level_ready(l),
                    forall|l: int| 1 <= l <= done ==> Self::fwd_fresh_at(*old(self), *self, l),
                    forall|j: int|
                        old(self).views@.len() <= j < self.views@.len()
                            ==> self.cur_path@.len() < (#[trigger] self.views@[j]).0@.len()
                            <= self.cur_path@.len() + done,
                    (forall|l: int| 1 <= l <= ofs ==> old(self).level_ready(l)) ==> *self == *old(
                        self,
                    ),
                    done == 0 ==> *self == *old(self),
                decreases ofs - done,
            {
                let lvl = done + 1;
                let child_path = match self.traverse_dirs(lvl) {
                    Some(p) => p,
                    None => {
                        proof {
                            if forall|l: int| 1 <= l <= ofs ==> old(self).level_ready(l) {
                                assert(old(self).level_ready(lvl as int));
                                assert(false);
                            }
                        }
                        return done;
                    },
                };
                match self.find_pane(&child_path) {
                    Some(_) => {
                        proof {
                            assert(self.level_ready(lvl as int));
                            // a pane already under this key was in the cache from
                            // the start: every key added here lies nearer the focus
                            lemma_resolve_len(self.views@, self.cur_path@, lvl as int);
                            if !old(self).cached(child_path@) {
                                lemma_cache_lookup_properties(self.views@, child_path@);
                                let i = cache_lookup(self.views@, child_path@)->Some_0;
                                if i < old(self).views@.len() {
                                    assert(self.views@.subrange(
                                        0,
                                        old(self).views@.len() as int,
                                    )[i] == self.views@[i]);
                                    lemma_cache_lookup_properties(old(self).views@, child_path@);
                                    assert(false);
                                } else {
                                    assert(self.views@[i].0@.len() <= self.cur_path@.len()
                                        + done);
                                    assert(false);
                                }
                            }
                        }
                    },
                    None => {
                        proof {
                            if forall|l: int| 1 <= l <= ofs ==> old(self).level_ready(l) {
                                assert(old(self).level_ready(lvl as int));
                                assert(false);
                            }
                        }
                        let ghost rows0 = self.views@;
                        let ghost pre = *self;
                        let parent_path = match self.traverse_dirs(done) {
                            Some(q) => q,
                            None => {
                                proof {
                                    assert(false);
                                }
                                CanonPath::root()
                            },
                        };
                        let pidx = match self.find_pane(&parent_path) {
                            Some(i) => i,
                            None => {
                                proof {
                                    assert(false);
                                }
                                0
                            },
                        };
                        proof {
                            lemma_cache_lookup_properties(self.views@, parent_path@);
                        }
                        let made = match &self.views[pidx].1 {
                            Pane::Dir(d) => d.make_selected_view(),
                            Pane::File(_) => {
                                proof {
                                    assert(false);
                                }
                                None
                            },
                        };
                        let new_pane = match made {
                            None => {
                                proof {
                                    assert(self.fwd_blocked(fs, lvl as int));
                                }
                                return done;
                            },
                            Some(Pane::File(fv)) => Pane::File(fv),
                            Some(Pane::Dir(mut child)) => {
                                match child.scan_dir(fs) {
                                    Err(_) => {
                                        proof {
                                            assert(self.fwd_blocked(fs, lvl as int));
                                        }
                                        return done;
                                    },
                                    Ok(()) => {},
                                }
                                child.sort(crate::dirview::SortOrder::Name);
                                child.select_first();
                                proof {
                                    assert(child.sel@ =~= seq![0usize]);
                                }
                                Pane::Dir(child)
                            },
                        };
                        proof {
                            lemma_cache_lookup_properties(rows0, child_path@);
                        }
                        let ghost child_key = child_path@;
                        self.views.push((child_path, new_pane));
                        proof {
                            let rowv = self.views@[rows0.len() as int];
                            assert(self.views@ == rows0.push(rowv));
                            assert(rows0.is_prefix_of(self.views@));
                            assert(old(self).views@.is_prefix_of(self.views@));
                            lemma_cache_lookup_push(rows0, self.cur_path@, rowv);
                            lemma_cache_lookup_push(rows0, child_key, rowv);
                            assert(rowv.0@ == child_key);
                            // The whole chain up to the parent was already cached.
                            assert forall|j: int|
                                0 <= j <= done as int implies (#[trigger] resolve_at(
                                rows0,
                                self.cur_path@,
                                j,
                            )) is Some && cache_lookup(
                                rows0,
                                resolve_at(rows0, self.cur_path@, j)->Some_0,
                            ) is Some by {
                                if j == 0 {
                                    assert(resolve_at(rows0, self.cur_path@, 0) == Some(
                                        self.cur_path@,
                                    ));
                                } else {
                                    assert(pre.level_ready(j));
                                }
                            }
                            // Every level up to and including the new one resolves as
                            // before and is cached.
                            assert forall|l: int| 0 <= l <= lvl as int implies resolve_at(
                                self.views@,
                                self.cur_path@,
                                l,
                            ) == resolve_at(rows0, self.cur_path@, l) by {
                                lemma_resolve_push_fwd(rows0, self.cur_path@, rowv, l);
                            }
                            assert(resolve_at(rows0, self.cur_path@, lvl as int) == Some(
                                child_key,
                            ));
                            assert forall|l: int| 1 <= l <= lvl as int implies self.level_ready(
                                l,
                            ) by {
                                assert(resolve_at(rows0, self.cur_path@, l) is Some);
                                let p = resolve_at(rows0, self.cur_path@, l)->Some_0;
                                lemma_cache_lookup_push(rows0, p, rowv);
                                if l < lvl as int {
                                    assert(cache_lookup(rows0, p) is Some);
                                } else {
                                    assert(p == child_key);
                                }
                            }
                            // Uniqueness of keys carries over to the new row.
                            assert forall|i: int, j: int|
                                0 <= i < j < self.views@.len() implies (
                            #[trigger] self.views@[i]).0@ != (#[trigger] self.views@[j]).0@ by {
                                if j < self.views@.len() - 1 {
                                    assert(self.views@[i] == rows0[i] && self.views@[j] == rows0[j]);
                                } else {
                                    assert(self.views@[i] == rows0[i]);
                                }
                            }
                            // The appended key lies below the focus.
                            lemma_resolve_len(rows0, self.cur_path@, lvl as int);
                            assert(child_key.len() == self.cur_path@.len() + lvl);
                            assert forall|j: int|
                                old(self).views@.len() <= j < self.views@.len() implies (
                            #[trigger] self.views@[j]).0@.len() > self.cur_path@.len() by {
                                if j < rows0.len() {
                                    assert(self.views@[j] == rows0[j]);
                                } else {
                                    assert(self.views@[j] == rowv);
                                }
                            }
                            // Freshness of every level up to the new one.
                            let parent_key = resolve_at(rows0, self.cur_path@, done as int)->Some_0;
                            lemma_cache_lookup_properties(rows0, parent_key);
                            assert forall|l: int|
                                1 <= l <= lvl as int implies Self::fwd_fresh_at(
                                *old(self),
                                *self,
                                l,
                            ) by {
                                let pp = resolve_at(rows0, self.cur_path@, l)->Some_0;
                                let qq = resolve_at(rows0, self.cur_path@, l - 1)->Some_0;
                                assert(resolve_at(self.views@, self.cur_path@, l) == Some(pp));
                                assert(resolve_at(self.views@, self.cur_path@, l - 1) == Some(qq));
                                lemma_cache_lookup_push(rows0, pp, rowv);
                                lemma_cache_lookup_push(rows0, qq, rowv);
                                lemma_cache_lookup_properties(rows0, pp);
                                lemma_cache_lookup_properties(rows0, qq);
                                if l < lvl as int {
                                    assert(Self::fwd_fresh_at(*old(self), pre, l));
                                    if !old(self).cached(pp) {
                                        let qi = cache_lookup(rows0, qq)->Some_0;
                                        assert(self.views@[qi] == rows0[qi]);
                                        let pi = cache_lookup(rows0, pp)->Some_0;
                                        assert(self.views@[pi] == rows0[pi]);
                                    }
                                } else {
                                    assert(pp == child_key);
                                    assert(qq == parent_key);
                                    assert(self.pane_at(child_key) == rowv.1);
                                    let qi = cache_lookup(rows0, qq)->Some_0;
                                    assert(self.views@[qi] == rows0[qi]);
                                    assert(qi == pidx as int);
                                    assert(self.pane_at(qq) == rows0[pidx as int].1);
                                }
                            }
                        }
                    },
                }
                done = lvl;
            }
            return ofs;
        }
        if ofs < 0 {
            let mut done: isize = 0;
            while done > ofs
                invariant
                    self.wf(),
                    ofs < 0,
                    ofs <= done <= 0,
                    self.geo == old(self).geo,
                    self.cur_path == old(self).cur_path,
                    self.views_shown == old(self).views_shown,
                    old(self).views@.is_prefix_of(self.views@),
                    forall|j: int|
                        old(self).views@.len() <= j < self.views@.len() ==> Self::populated_pane(
                            (#[trigger] self.views@[j]).1,
                            fs,
                        ),
                    forall|l: int| done <= l <= -1 ==> self.level_ready(l),
                    forall|l: int| done <= l <= -1 ==> Self::bwd_fresh_at(*old(self), *self, l),
                    forall|j: int|
                        old(self).views@.len() <= j < self.views@.len()
                            ==> self.cur_path@.len() + done <= (
                            #[trigger] self.views@[j]).0@.len() < self.cur_path@.len(),
                    (forall|l: int| ofs <= l <= -1 ==> old(self).level_ready(l)) ==> *self == *old(
                        self,
                    ),
                    done == 0 ==> *self == *old(self),
                decreases done - ofs,
            {
                let lvl = done - 1;
                let child_path = match self.traverse_dirs(done) {
                    Some(p) => p,
                    None => {
                        proof {
                            if done == 0 {
                                assert(self.resolve(0) == Some(self.cur_path@));
                            } else {
                                assert(self.level_ready(done as int));
                            }
                            assert(false);
                        }
                        return done;
                    },
                };
                let parent_path = match child_path.parent() {
                    Some(q) => q,
                    None => {
                        proof {
                            assert(self.resolve(lvl as int) is None);
                            if forall|l: int| ofs <= l <= -1 ==> old(self).level_ready(l) {
                                assert(old(self).level_ready(lvl as int));
                                assert(false);
                            }
                        }
                        return done;
                    },
                };
                match self.find_pane(&parent_path) {
                    Some(_) => {
                        proof {
                            assert(self.level_ready(lvl as int));
                            // a pane already under this key was in the cache from
                            // the start: every key added here lies farther out
                            lemma_resolve_len(self.views@, self.cur_path@, lvl as int);
                            if !old(self).cached(parent_path@) {
                                lemma_cache_lookup_properties(self.views@, parent_path@);
                                let i = cache_lookup(self.views@, parent_path@)->Some_0;
                                if i < old(self).views@.len() {
                                    assert(self.views@.subrange(
                                        0,
                                        old(self).views@.len() as int,
                                    )[i] == self.views@[i]);
                                    lemma_cache_lookup_properties(old(self).views@, parent_path@);
                                    assert(false);
                                } else {
                                    assert(self.views@[i].0@.len() >= self.cur_path@.len()
                                        + done);
                                    assert(false);
                                }
                            }
                        }
                    },
                    None => {
                        proof {
                            if forall|l: int| ofs <= l <= -1 ==> old(self).level_ready(l) {
                                assert(old(self).level_ready(lvl as int));
                                assert(false);
                            }
                        }
                        let ghost rows0 = self.views@;
                        let ghost pre = *self;
                        let cidx = match self.find_pane(&child_path) {
                            Some(i) => i,
                            None => {
                                proof {
                                    if done == 0 {
                                        assert(self.resolve(0) == Some(self.cur_path@));
                                    } else {
                                        assert(self.level_ready(done as int));
                                    }
                                    assert(false);
                                }
                                0
                            },
                        };
                        proof {
                            lemma_cache_lookup_properties(self.views@, child_path@);
                        }
                        let mut parent = match self.views[cidx].1.make_parent_dir_view() {
                            Some(d) => d,
                            None => {
                                proof {
                                    assert(false);
                                }
                                DirView::new(self.geo, CanonPath::root())
                            },
                        };
                        match parent.scan_dir(fs) {
                            Err(_) => {
                                proof {
                                    lemma_cache_lookup_properties(rows0, parent_path@);
                                    assert(self.bwd_blocked(fs, lvl as int));
                                }
                                return done;
                            },
                            Ok(()) => {},
                        }
                        proof {
                            assert(parent.sel@ =~= seq![0usize]);
                        }
                        let ghost scanned = parent;
                        parent.sort(crate::dirview::SortOrder::Name);
                        proof {
                            if parent.entries@.len() > 0 {
                                assert(parent.sorted_indices@[parent.sel@[0] as int]
                                    == scanned.sorted_indices@[scanned.sel@[0] as int]);
                                assert(scanned.sorted_indices@[0] == 0usize);
                            }
                        }
                        let child_name = child_path.last_name();
                        let ghost cname = child_name@;
                        parent.select_by_name(child_name);
                        proof {
                            match DirView::first_match(
                                parent.entries@,
                                parent.sorted_indices@,
                                cname,
                                0,
                            ) {
                                Some(q) => {
                                    assert(parent.sel@ =~= seq![q as usize]);
                                },
                                None => {},
                            }
                        }
                        parent.ensure_sel_in_view();
                        proof {
                            assert(parent.sel@.len() == 1);
                            lemma_cache_lookup_properties(rows0, parent_path@);
                        }
                        let ghost child_key = child_path@;
                        let ghost parent_key = parent_path@;
                        self.views.push((parent_path, Pane::Dir(parent)));
                        proof {
                            let rowv = self.views@[rows0.len() as int];
                            assert(self.views@ == rows0.push(rowv));
                            assert(rowv.0@ == parent_key);
                            assert(rows0.is_prefix_of(self.views@));
                            assert(old(self).views@.is_prefix_of(self.views@));
                            lemma_cache_lookup_push(rows0, self.cur_path@, rowv);
                            assert(resolve_at(rows0, self.cur_path@, done as int) == Some(
                                child_key,
                            ));
                            assert(child_key.len() > 0);
                            assert(resolve_at(rows0, self.cur_path@, lvl as int) == Some(
                                parent_key,
                            ));
                            assert forall|l: int| lvl as int <= l <= -1 implies self.level_ready(
                                l,
                            ) by {
                                lemma_resolve_neg_rows_independent(
                                    self.views@,
                                    rows0,
                                    self.cur_path@,
                                    l,
                                );
                                if l > lvl as int {
                                    assert(pre.level_ready(l));
                                }
                                assert(resolve_at(rows0, self.cur_path@, l) is Some);
                                let p = resolve_at(rows0, self.cur_path@, l)->Some_0;
                                lemma_cache_lookup_push(rows0, p, rowv);
                                if l > lvl as int {
                                    assert(cache_lookup(rows0, p) is Some);
                                } else {
                                    assert(p == parent_key);
                                }
                            }
                            assert forall|i: int, j: int|
                                0 <= i < j < self.views@.len() implies (
                            #[trigger] self.views@[i]).0@ != (#[trigger] self.views@[j]).0@ by {
                                if j < self.views@.len() - 1 {
                                    assert(self.views@[i] == rows0[i] && self.views@[j] == rows0[j]);
                                } else {
                                    assert(self.views@[i] == rows0[i]);
                                }
                            }
                            // The appended key lies above the focus.
                            lemma_resolve_len(rows0, self.cur_path@, lvl as int);
                            assert(parent_key.len() == self.cur_path@.len() + lvl);
                            assert forall|j: int|
                                old(self).views@.len() <= j < self.views@.len() implies self.cur_path@.len()
                                + lvl <= (#[trigger] self.views@[j]).0@.len()
                                < self.cur_path@.len() by {
                                if j < rows0.len() {
                                    assert(self.cur_path@.len() + done <= (
                                    pre.views@[j]).0@.len() < self.cur_path@.len());
                                    assert(self.views@[j] == rows0[j]);
                                    assert(rows0[j] == pre.views@[j]);
                                } else {
                                    assert(self.views@[j] == rowv);
                                }
                            }
                            // Freshness of every level out to the new one.
                            assert forall|l: int|
                                lvl as int <= l <= -1 implies Self::bwd_fresh_at(
                                *old(self),
                                *self,
                                l,
                            ) by {
                                lemma_resolve_neg_rows_independent(
                                    self.views@,
                                    rows0,
                                    self.cur_path@,
                                    l,
                                );
                                lemma_resolve_neg_rows_independent(
                                    self.views@,
                                    rows0,
                                    self.cur_path@,
                                    l + 1,
                                );
                                let pp = resolve_at(rows0, self.cur_path@, l)->Some_0;
                                lemma_cache_lookup_push(rows0, pp, rowv);
                                lemma_cache_lookup_properties(rows0, pp);
                                if l > lvl as int {
                                    assert(Self::bwd_fresh_at(*old(self), pre, l));
                                    assert(pre.level_ready(l));
                                    if !old(self).cached(pp) {
                                        let pi = cache_lookup(rows0, pp)->Some_0;
                                        assert(self.views@[pi] == rows0[pi]);
                                    }
                                } else {
                                    assert(pp == parent_key);
                                    assert(self.pane_at(parent_key) == rowv.1);
                                    assert(resolve_at(self.views@, self.cur_path@, l + 1) == Some(
                                        child_key,
                                    ));
                                    assert(cname == child_key.last());
                                }
                            }
                        }
                    },
                }
                done = lvl;
            }
            return ofs;
        }
        0
    }

    /// The cached file pane at a level offset, when the level
    /// resolves to a file pane.
    pub fn get_file(&self, lvl_ofs: isize) -> (r: Option<&FileView>)
        requires
            self.wf(),
        ensures
            match r {
                Some(f) => {
                    &&& self.view_at_spec(lvl_ofs as int) is Some
                    &&& self.view_at_spec(lvl_ofs as int)->Some_0 is File
                    &&& *f == self.view_at_spec(lvl_ofs as int)->Some_0->File_0
                },
                None => !(self.view_at_spec(lvl_ofs as int) matches Some(p) && p is File),
            },
    {
        match self.get_view(lvl_ofs) {
            Some(v) => v.as_file(),
            None => None,
        }
    }
}

/// Levels that are materialized stay materialized for any offset of
/// the same sign that is nearer to the focus: the populated range is
/// downward closed toward the focus.
pub proof fn lemma_populated_monotone(nv: Nv, k: int, k2: int)
    requires
        0 <= k2 <= k || k <= k2 <= 0,
        forall|l: int| (1 <= l <= k || k <= l <= -1) ==> #[trigger] nv.level_ready(l),
    ensures
        forall|l: int| (1 <= l <= k2 || k2 <= l <= -1) ==> #[trigger] nv.level_ready(l),
{
}

impl Nv {
    /// Width of one pane column under the fixed layout: one cell is
    /// reserved, the rest divides evenly among the panes shown.
    pub open spec fn pane_width(geo: Rect, shown: nat) -> int {
        if geo.w == 0 || shown == 0 {
            0
        } else {
            ((geo.w - 1) as int) / (shown as int)
        }
    }

    /// Where the pane at a level offset is placed on screen.
    pub open spec fn pane_rect(geo: Rect, shown: nat, ofs: int) -> Rect {
        Rect {
            x: ((ofs + shown - 2) * Self::pane_width(geo, shown)) as u16,
            y: 0,
            w: Self::pane_width(geo, shown) as u16,
            h: geo.h,
        }
    }

    /// The visible layout from a level offset on: for each offset up
    /// to the preview level that resolves to a cached pane, that
    /// pane's path and its rectangle, left to right.
    pub open spec fn layout_from(nv: Nv, ofs: int) -> Seq<(Seq<Seq<char>>, Rect)>
        decreases (if ofs <= 1 {
            2 - ofs
        } else {
            0
        }),
    {
        if ofs > 1 {
            Seq::empty()
        } else {
            let rest = Self::layout_from(nv, ofs + 1);
            match resolve_at(nv.views@, nv.cur_path@, ofs) {
                Some(p) => if cache_lookup(nv.views@, p) is Some {
                    seq![(p, Self::pane_rect(nv.geo, nv.views_shown as nat, ofs))] + rest
                } else {
                    rest
                },
                None => rest,
            }
        }
    }

    /// Computes the layout of the panes now visible: each resolvable
    /// cached level in the visible offset range, with its rectangle.
    /// Unresolvable offsets are skipped, not errors.
    pub fn compute_layout(&self) -> (r: Vec<(CanonPath, Rect)>)
        requires
            self.wf(),
            self.views_shown <= isize::MAX as usize,
        ensures
            ({
                let lay = Self::layout_from(*self, 2 - self.views_shown as int);
                &&& r@.len() == lay.len()
                &&& forall|j: int|
                    0 <= j < r@.len() ==> (#[trigger] r@[j]).0@ == lay[j].0 && r@[j].1 == lay[j].1
            }),
    {
        let shown = self.views_shown;
        let pre = shown - 2;
        let lo: isize = -(pre as isize);
        let width: u16 = if self.geo.w == 0 {
            0
        } else {
            let wu: usize = (self.geo.w - 1) as usize;
            let q = wu / shown;
            proof {
                assert(q <= wu);
            }
            q as u16
        };
        let ghost lay = Self::layout_from(*self, lo as int);
        let mut out: Vec<(CanonPath, Rect)> = Vec::new();
        let mut ofs: isize = lo;
        while ofs <= 1
            invariant
                self.wf(),
                shown == self.views_shown,
                shown >= 2,
                shown <= isize::MAX as usize,
                lo as int == 2 - shown as int,
                lo <= ofs <= 2,
                width as int == Self::pane_width(self.geo, shown as nat),
                lay == Self::layout_from(*self, lo as int),
                out@.len() + Self::layout_from(*self, ofs as int).len() == lay.len(),
                Self::layout_from(*self, ofs as int) == lay.skip(out@.len() as int),
                forall|j: int|
                    0 <= j < out@.len() ==> (#[trigger] out@[j]).0@ == lay[j].0 && out@[j].1
                        == lay[j].1,
            decreases 2 - ofs,
        {
            let ghost rest = Self::layout_from(*self, ofs as int + 1);
            let found = match self.traverse_dirs(ofs) {
                Some(p) => {
                    match self.find_pane(&p) {
                        Some(_) => Some(p),
                        None => None,
                    }
                },
                None => None,
            };
            match found {
                Some(p) => {
                    let idx = (ofs - lo) as usize;
                    proof {
                        assert(idx as int == ofs + shown - 2);
                        assert(idx as int <= shown - 1);
                        if width > 0 {
                            assert((self.geo.w - 1) as int / (shown as int) >= 1);
                            assert(shown as int * (width as int) <= (self.geo.w - 1) as int) by {
                                vstd::arithmetic::div_mod::lemma_fundamental_div_mod(
                                    (self.geo.w - 1) as int,
                                    shown as int,
                                );
                            }
                            assert((idx as int) * (width as int) <= (shown as int - 1) * (
                            width as int) <= (self.geo.w - 1) as int) by (nonlinear_arith)
                                requires
                                    idx as int <= shown as int - 1,
                                    width as int >= 0,
                                    shown as int * (width as int) <= (self.geo.w - 1) as int,
                            ;
                        }
                    }
                    let x_us: usize = idx * (width as usize);
                    let rect = Rect { x: x_us as u16, y: 0, w: width, h: self.geo.h };
                    proof {
                        assert(rect == Self::pane_rect(self.geo, shown as nat, ofs as int));
                        let head = (p@, rect);
                        assert(Self::layout_from(*self, ofs as int) == seq![head] + rest);
                        assert(lay.skip(out@.len() as int)[0] == head);
                        assert(lay[out@.len() as int] == head);
                        assert(lay.skip(out@.len() as int).drop_first() =~= lay.skip(
                            out@.len() as int + 1,
                        ));
                        assert((seq![head] + rest).drop_first() =~= rest);
                    }
                    out.push((p, rect));
                },
                None => {
                    proof {
                        assert(Self::layout_from(*self, ofs as int) == rest);
                    }
                },
            }
            ofs += 1;
        }
        proof {
            assert(Self::layout_from(*self, ofs as int).len() == 0);
            assert(out@.len() == lay.len());
        }
        out
    }

    /// Moves the cached pane at a path to a new rectangle; panes at
    /// other paths do not change.
    pub fn apply_geo(&mut self, p: &CanonPath, r: Rect)
        requires
            old(self).wf(),
        ensures
            final(self).wf(),
            final(self).geo == old(self).geo,
            final(self).views_shown == old(self).views_shown,
            final(self).cur_path == old(self).cur_path,
            final(self).views@.len() == old(self).views@.len(),
            match cache_lookup(old(self).views@, p@) {
                None => final(self).views@ == old(self).views@,
                Some(i) => {
                    &&& forall|j: int|
                        0 <= j < old(self).views@.len() && j != i
                            ==> #[trigger] final(self).views@[j] == old(self).views@[j]
                    &&& final(self).views@[i].0 == old(self).views@[i].0
                    &&& final(self).views@[i].1.geo_spec() == r
                    &&& final(self).views@[i].1.path_spec() == old(self).views@[i].1.path_spec()
                },
            },
    {
        let ghost rows0 = self.views@;
        match self.find_pane(p) {
            Some(i) => {
                proof {
                    lemma_cache_lookup_properties(self.views@, p@);
                }
                self.views[i].1.set_geo(r);
                proof {
                    assert forall|j: int| 0 <= j < self.views@.len() implies (
                    #[trigger] self.views@[j]).0@ == rows0[j].0@ && self.views@[j].1.wf()
                        && self.views@[j].1.path_spec() == self.views@[j].0@ by {
                        if j != i as int {
                            assert(self.views@[j] == rows0[j]);
                        }
                    }
                    assert forall|k: Seq<Seq<char>>| true implies #[trigger] cache_lookup(
                        self.views@,
                        k,
                    ) == cache_lookup(rows0, k) by {
                        lemma_cache_lookup_same_keys(self.views@, rows0, k);
                    }
                }
            },
            None => {
                proof {
                    assert(self.views@ =~= rows0);
                }
            },
        }
    }
}

} // verus!
