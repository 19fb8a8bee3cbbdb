use vstd::prelude::*;
use crate::fsdata::{duplicate_entries, Entry, EntryKind, Fs};
use crate::geom::Rect;
use crate::order::{lemma_lex_lt_connected, lemma_lex_lt_transitive, lex_lt, str_lt};
use crate::path::CanonPath;

verus! {

/// Sort orders a directory pane can show. Only name order exists
/// today; the enum leaves room for more.
pub enum SortOrder {
    Name,
}

/// The error a failed directory scan reports.
#[derive(Clone, Copy, PartialEq, Eq, Structural, Debug)]
pub enum NavError {
    DirectoryUnreadable,
}

/// The identity permutation on `n` indices.
pub open spec fn identity_indices(n: nat) -> Seq<usize> {
    Seq::new(n, |i: int| i as usize)
}

/// A permutation of the original indices `0..n`, as one multiset.
pub open spec fn is_index_permutation(s: Seq<usize>, n: nat) -> bool {
    s.to_multiset() == identity_indices(n).to_multiset()
}

pub proof fn lemma_index_permutation_properties(s: Seq<usize>, n: nat)
    requires
        is_index_permutation(s, n),
        n <= usize::MAX as nat,
    ensures
        s.len() == n,
        forall|k: int| 0 <= k < s.len() ==> (#[trigger] s[k]) < n,
        forall|v: usize| v < n ==> s.contains(v),
        s.no_duplicates(),
{
    broadcast use vstd::seq_lib::group_to_multiset_ensures;

    let id = identity_indices(n);
    assert(id.len() == n);
    assert(s.to_multiset().len() == s.len());
    assert(id.to_multiset().len() == id.len());
    assert(s.len() == n);
    assert forall|k: int| 0 <= k < s.len() implies (#[trigger] s[k]) < n by {
        assert(s.contains(s[k]));
        assert(s.to_multiset().count(s[k]) > 0);
        assert(id.to_multiset().count(s[k]) > 0);
        assert(id.contains(s[k]));
        let j = choose|j: int| 0 <= j < id.len() && id[j] == s[k];
        assert(id[j] == j as usize);
    }
    assert forall|v: usize| v < n implies s.contains(v) by {
        assert(id[v as int] == v);
        assert(id.contains(v));
        assert(id.to_multiset().count(v) > 0);
        assert(s.to_multiset().count(v) > 0);
    }
    assert(id.no_duplicates()) by {
        assert forall|i: int, j: int|
            0 <= i < id.len() && 0 <= j < id.len() && i != j implies id[i] != id[j] by {
            assert(id[i] == i as usize && id[j] == j as usize);
        }
    }
    id.lemma_multiset_has_no_duplicates();
    s.lemma_multiset_has_no_duplicates_conv();
}

/// Strict key order the sort permutation follows: by entry name, and
/// by original index between equal names, so the order is total and
/// the sorted permutation unique.
pub open spec fn entry_key_lt(es: Seq<Entry>, a: int, b: int) -> bool {
    ||| lex_lt(es[a].name@, es[b].name@)
    ||| (es[a].name@ == es[b].name@ && a < b)
}

pub proof fn lemma_entry_key_lt_connected(es: Seq<Entry>, a: int, b: int)
    requires
        a != b,
    ensures
        entry_key_lt(es, a, b) || entry_key_lt(es, b, a),
{
    if es[a].name@ != es[b].name@ {
        lemma_lex_lt_connected(es[a].name@, es[b].name@);
    }
}

pub proof fn lemma_entry_key_lt_transitive(es: Seq<Entry>, a: int, b: int, c: int)
    requires
        entry_key_lt(es, a, b),
        entry_key_lt(es, b, c),
    ensures
        entry_key_lt(es, a, c),
{
    if lex_lt(es[a].name@, es[b].name@) && lex_lt(es[b].name@, es[c].name@) {
        lemma_lex_lt_transitive(es[a].name@, es[b].name@, es[c].name@);
    }
}

/// Decides `entry_key_lt` between two original indices.
fn key_lt_exec(entries: &Vec<Entry>, a: usize, b: usize) -> (r: bool)
    requires
        a < entries@.len(),
        b < entries@.len(),
    ensures
        r == entry_key_lt(entries@, a as int, b as int),
{
    if str_lt(entries[a].name.as_str(), entries[b].name.as_str()) {
        true
    } else if entries[a].name == entries[b].name {
        a < b
    } else {
        false
    }
}

/// Sorts a duplicate-free index vector under `entry_key_lt` by
/// insertion, returning the same indices strictly ordered.
fn sort_indices(entries: &Vec<Entry>, v: &Vec<usize>) -> (r: Vec<usize>)
    requires
        v@.no_duplicates(),
        forall|k: int| 0 <= k < v@.len() ==> (#[trigger] v@[k]) < entries@.len(),
    ensures
        r@.to_multiset() == v@.to_multiset(),
        forall|a: int, b: int|
            0 <= a < b < r@.len() ==> entry_key_lt(entries@, r@[a] as int, r@[b] as int),
{
    broadcast use vstd::seq_lib::group_to_multiset_ensures;

    let mut out: Vec<usize> = Vec::new();
    let mut i: usize = 0;
    proof {
        assert(v@.subrange(0, 0).to_multiset() =~= Seq::<usize>::empty().to_multiset());
        assert(out@.to_multiset() =~= Seq::<usize>::empty().to_multiset());
    }
    while i < v.len()
        invariant
            i <= v@.len(),
            v@.no_duplicates(),
            forall|k: int| 0 <= k < v@.len() ==> (#[trigger] v@[k]) < entries@.len(),
            out@.to_multiset() == v@.subrange(0, i as int).to_multiset(),
            out@.len() == i as int,
            forall|k: int| 0 <= k < out@.len() ==> (#[trigger] out@[k]) < entries@.len(),
            forall|a: int, b: int|
                0 <= a < b < out@.len() ==> entry_key_lt(entries@, out@[a] as int, out@[b] as int),
        decreases v@.len() - i,
    {
        let x = v[i];
        proof {
            // x is not yet in `out`: it would be a duplicate in `v`.
            if out@.contains(x) {
                vstd::seq_lib::to_multiset_contains(out@, x);
                assert(out@.to_multiset().count(x) > 0);
                assert(v@.subrange(0, i as int).to_multiset().count(x) > 0);
                vstd::seq_lib::to_multiset_contains(v@.subrange(0, i as int), x);
                assert(v@.subrange(0, i as int).contains(x));
                let j = choose|j: int|
                    0 <= j < i as int && v@.subrange(0, i as int)[j] == x;
                assert(v@[j] == x);
                assert(false);
            }
        }
        let ghost out0 = out@;
        let mut j: usize = 0;
        while j < out.len() && !key_lt_exec(entries, x, out[j])
            invariant
                j <= out@.len(),
                out@ == out0,
                x < entries@.len(),
                !out@.contains(x),
                forall|k: int| 0 <= k < out@.len() ==> (#[trigger] out@[k]) < entries@.len(),
                forall|a: int, b: int|
                    0 <= a < b < out@.len() ==> entry_key_lt(
                        entries@,
                        out@[a] as int,
                        out@[b] as int,
                    ),
                forall|k: int|
                    0 <= k < j as int ==> entry_key_lt(entries@, (#[trigger] out@[k]) as int, x as int),
            decreases out@.len() - j,
        {
            proof {
                assert(out@[j as int] != x);
                lemma_entry_key_lt_connected(entries@, x as int, out@[j as int] as int);
            }
            j += 1;
        }
        proof {
            // Everything at or after the insertion point is above x.
            assert forall|k: int| j as int <= k < out@.len() implies entry_key_lt(
                entries@,
                x as int,
                (#[trigger] out@[k]) as int,
            ) by {
                assert(entry_key_lt(entries@, x as int, out@[j as int] as int));
                if k > j as int {
                    lemma_entry_key_lt_transitive(
                        entries@,
                        x as int,
                        out@[j as int] as int,
                        out@[k] as int,
                    );
                }
            }
        }
        let ghost before = out@;
        out.insert(j, x);
        proof {
            let after = before.insert(j as int, x);
            assert(out@ == after);
            vstd::seq_lib::to_multiset_insert(before, j as int, x);
            assert(before.insert(j as int, x).to_multiset() == before.to_multiset().insert(x));
            vstd::seq_lib::to_multiset_build(v@.subrange(0, i as int), x);
            assert(v@.subrange(0, i as int).push(x).to_multiset() == v@.subrange(
                0,
                i as int,
            ).to_multiset().insert(x));
            assert(v@.subrange(0, i as int).push(x) =~= v@.subrange(0, i as int + 1));
            assert(v@.subrange(0, i as int + 1).to_multiset() == v@.subrange(
                0,
                i as int,
            ).to_multiset().insert(x));
            assert forall|a: int, b: int|
                0 <= a < b < after.len() implies entry_key_lt(
                entries@,
                after[a] as int,
                after[b] as int,
            ) by {
                if b < j as int {
                    assert(after[a] == before[a] && after[b] == before[b]);
                } else if a > j as int {
                    assert(after[a] == before[a - 1] && after[b] == before[b - 1]);
                } else if a == j as int {
                    assert(after[a] == x && after[b] == before[b - 1]);
                } else if b == j as int {
                    assert(after[a] == before[a] && after[b] == x);
                } else {
                    // a < j < b
                    assert(after[a] == before[a] && after[b] == before[b - 1]);
                }
            }
        }
        i += 1;
    }
    proof {
        assert(v@.subrange(0, v@.len() as int) =~= v@);
    }
    out
}

/// Looks an index value up in a permutation vector.
fn find_index(v: &Vec<usize>, x: usize) -> (r: Option<usize>)
    ensures
        match r {
            Some(p) => p < v@.len() && v@[p as int] == x,
            None => !v@.contains(x),
        },
{
    let mut i: usize = 0;
    while i < v.len()
        invariant
            i <= v@.len(),
            forall|j: int| 0 <= j < i as int ==> v@[j] != x,
        decreases v@.len() - i,
    {
        if v[i] == x {
            return Some(i);
        }
        i += 1;
    }
    None
}

/// A pane showing one directory: the scanned entries, the sort
/// permutation, the selection (primary cursor first), and the scroll.
pub struct DirView {
    pub geo: Rect,
    pub dir: CanonPath,
    pub sel: Vec<usize>,
    pub scroll: usize,
    pub entries: Vec<Entry>,
    pub sorted_indices: Vec<usize>,
}

impl DirView {
    /// Well-formedness: the sort permutation really permutes the
    /// entry indices, there is always a primary cursor, and every
    /// selected row is in range while any entries exist.
    pub open spec fn wf(&self) -> bool {
        &&& self.sel@.len() >= 1
        &&& is_index_permutation(self.sorted_indices@, self.entries@.len())
        &&& self.entries@.len() > 0 ==> forall|k: int|
            0 <= k < self.sel@.len() ==> (#[trigger] self.sel@[k]) < self.entries@.len()
        &&& self.entries@.len() == 0 ==> self.sel@ == seq![0usize]
    }

    pub open spec fn entry_count_spec(&self) -> nat {
        self.entries@.len()
    }

    /// The sorted row the primary cursor sits on.
    pub open spec fn primary_spec(&self) -> int {
        self.sel@[0] as int
    }

    /// Original index of the selected entry, when there is one.
    pub open spec fn sel_index_spec(&self) -> Option<int> {
        if self.entries@.len() > 0 {
            Some(self.sorted_indices@[self.sel@[0] as int] as int)
        } else {
            None
        }
    }

    /// Name of the selected entry, when there is one.
    pub open spec fn sel_name_spec(&self) -> Option<Seq<char>> {
        match self.sel_index_spec() {
            Some(i) => Some(self.entries@[i].name@),
            None => None,
        }
    }

    /// Kind of the selected entry, when there is one.
    pub open spec fn sel_kind_spec(&self) -> Option<EntryKind> {
        match self.sel_index_spec() {
            Some(i) => Some(self.entries@[i].kind),
            None => None,
        }
    }

    /// Path of the selected entry, when there is one.
    pub open spec fn sel_path_spec(&self) -> Option<Seq<Seq<char>>> {
        match self.sel_name_spec() {
            Some(n) => Some(self.dir@.push(n)),
            None => None,
        }
    }

    /// A fresh, unscanned pane for a directory.
    pub fn new(geo: Rect, dir: CanonPath) -> (r: DirView)
        ensures
            r.geo == geo,
            r.dir@ == dir@,
            r.sel@ == seq![0usize],
            r.scroll == 0,
            r.entries@.len() == 0,
            r.sorted_indices@.len() == 0,
            r.wf(),
    {
        let mut sel: Vec<usize> = Vec::new();
        sel.push(0);
        let r = DirView { geo, dir, sel, scroll: 0, entries: Vec::new(), sorted_indices: Vec::new() };
        proof {
            assert(r.sel@ =~= seq![0usize]);
            assert(r.sorted_indices@ =~= identity_indices(0));
        }
        r
    }

    /// Replaces the entries with the snapshot's current listing for
    /// this directory, resets the permutation to the identity, and
    /// resets the selection to the first row if any selected row
    /// would fall out of range. On an unreadable directory nothing
    /// changes and `DirectoryUnreadable` comes back.
    pub fn scan_dir(&mut self, fs: &Fs) -> (r: Result<(), NavError>)
        requires
            old(self).wf(),
        ensures
            final(self).wf(),
            final(self).geo == old(self).geo,
            final(self).dir@ == old(self).dir@,
            final(self).scroll == old(self).scroll,
            match r {
                Ok(()) => {
                    &&& fs.listing_of(old(self).dir@) == Some(final(self).entries@)
                    &&& final(self).sorted_indices@ == identity_indices(final(self).entries@.len())
                    &&& final(self).sel@ == (if (exists|k: int|
                        0 <= k < old(self).sel@.len() && (#[trigger] old(self).sel@[k]) as int
                            >= final(self).entries@.len()) {
                        seq![0usize]
                    } else {
                        old(self).sel@
                    })
                },
                Err(e) => {
                    &&& e == NavError::DirectoryUnreadable
                    &&& fs.listing_of(old(self).dir@) is None
                    &&& *final(self) == *old(self)
                },
            },
    {
        let listing = match fs.listing(&self.dir) {
            None => {
                return Err(NavError::DirectoryUnreadable);
            },
            Some(l) => duplicate_entries(l),
        };
        self.entries = listing;
        let n = self.entries.len();
        let mut out_of_range = false;
        let mut k: usize = 0;
        let ghost mid = *self;
        while k < self.sel.len()
            invariant
                *self == mid,
                k <= self.sel@.len(),
                out_of_range == (exists|j: int|
                    0 <= j < k as int && (#[trigger] self.sel@[j]) as int >= n as int),
            decreases self.sel@.len() - k,
        {
            if self.sel[k] >= n {
                out_of_range = true;
            }
            k += 1;
        }
        proof {
            if n == 0 {
                assert(self.sel@[0] as int >= n as int);
                assert(out_of_range);
            }
        }
        if out_of_range {
            let mut sel: Vec<usize> = Vec::new();
            sel.push(0);
            self.sel = sel;
            proof {
                assert(self.sel@ =~= seq![0usize]);
            }
        }
        let mut ident: Vec<usize> = Vec::new();
        let mut i: usize = 0;
        while i < n
            invariant
                i <= n,
                ident@.len() == i as int,
                forall|j: int| 0 <= j < i as int ==> (#[trigger] ident@[j]) == j as usize,
            decreases n - i,
        {
            ident.push(i);
            i += 1;
        }
        proof {
            assert(ident@ =~= identity_indices(n as nat));
        }
        self.sorted_indices = ident;
        Ok(())
    }

    /// Re-sorts the permutation under the given order. The selection
    /// is carried across the change of permutation entry-wise: each
    /// selected row names the same entry afterwards as before.
    pub fn sort(&mut self, by: SortOrder)
        requires
            old(self).wf(),
        ensures
            final(self).wf(),
            final(self).geo == old(self).geo,
            final(self).dir@ == old(self).dir@,
            final(self).scroll == old(self).scroll,
            final(self).entries@ == old(self).entries@,
            final(self).sel@.len() == old(self).sel@.len(),
            old(self).entries@.len() == 0 ==> *final(self) == *old(self),
            forall|a: int, b: int|
                0 <= a < b < final(self).sorted_indices@.len() ==> entry_key_lt(
                    old(self).entries@,
                    final(self).sorted_indices@[a] as int,
                    final(self).sorted_indices@[b] as int,
                ),
            old(self).entries@.len() > 0 ==> forall|k: int|
                0 <= k < old(self).sel@.len() ==> final(self).sorted_indices@[(
                #[trigger] final(self).sel@[k]) as int] == old(self).sorted_indices@[old(
                    self,
                ).sel@[k] as int],
    {
        match by {
            SortOrder::Name => {},
        }
        let n = self.entries.len();
        if n == 0 {
            proof {
                lemma_index_permutation_properties(self.sorted_indices@, n as nat);
            }
            return ;
        }
        proof {
            lemma_index_permutation_properties(self.sorted_indices@, n as nat);
        }
        // Map each selected row to the original index of its entry.
        let ghost sel0 = self.sel@;
        let ghost sorted0 = self.sorted_indices@;
        let mut k: usize = 0;
        while k < self.sel.len()
            invariant
                k <= self.sel@.len(),
                self.sel@.len() == sel0.len(),
                self.sorted_indices@ == sorted0,
                self.geo == old(self).geo,
                self.dir == old(self).dir,
                self.scroll == old(self).scroll,
                self.entries == old(self).entries,
                self.entries@.len() == n,
                n > 0,
                n <= usize::MAX,
                is_index_permutation(sorted0, n as nat),
                forall|j: int| 0 <= j < sel0.len() ==> (#[trigger] sel0[j]) < n,
                forall|j: int| 0 <= j < sorted0.len() ==> (#[trigger] sorted0[j]) < n,
                sorted0.len() == n,
                forall|j: int|
                    0 <= j < k as int ==> (#[trigger] self.sel@[j]) == sorted0[sel0[j] as int],
                forall|j: int| k as int <= j < sel0.len() ==> (#[trigger] self.sel@[j]) == sel0[j],
            decreases self.sel@.len() - k,
        {
            let row = self.sel[k];
            self.sel[k] = self.sorted_indices[row];
            k += 1;
        }
        // Recompute the permutation under the new order.
        proof {
            lemma_index_permutation_properties(sorted0, n as nat);
        }
        let newly = sort_indices(&self.entries, &self.sorted_indices);
        proof {
            assert(newly@.to_multiset() == sorted0.to_multiset());
            lemma_index_permutation_properties(newly@, n as nat);
        }
        self.sorted_indices = newly;
        // Map each original index back to its new sorted row.
        let mut k2: usize = 0;
        while k2 < self.sel.len()
            invariant
                k2 <= self.sel@.len(),
                self.sel@.len() == sel0.len(),
                self.geo == old(self).geo,
                self.dir == old(self).dir,
                self.scroll == old(self).scroll,
                self.entries == old(self).entries,
                self.entries@.len() == n,
                n > 0,
                n <= usize::MAX,
                is_index_permutation(sorted0, n as nat),
                self.sorted_indices@.len() == n,
                is_index_permutation(self.sorted_indices@, n as nat),
                forall|a: int, b: int|
                    0 <= a < b < self.sorted_indices@.len() ==> entry_key_lt(
                        self.entries@,
                        self.sorted_indices@[a] as int,
                        self.sorted_indices@[b] as int,
                    ),
                forall|j: int| 0 <= j < sel0.len() ==> (#[trigger] sel0[j]) < n,
                sorted0.len() == n,
                forall|j: int|
                    k2 as int <= j < sel0.len() ==> (#[trigger] self.sel@[j]) == sorted0[sel0[j] as int],
                forall|j: int|
                    0 <= j < k2 as int ==> (#[trigger] self.sel@[j]) < n
                        && self.sorted_indices@[self.sel@[j] as int] == sorted0[sel0[j] as int],
            decreases self.sel@.len() - k2,
        {
            let target = self.sel[k2];
            proof {
                lemma_index_permutation_properties(sorted0, n as nat);
                assert(target < n);
                lemma_index_permutation_properties(self.sorted_indices@, n as nat);
                assert(self.sorted_indices@.contains(target));
            }
            match find_index(&self.sorted_indices, target) {
                Some(p) => {
                    self.sel[k2] = p;
                },
                None => {
                    proof {
                        assert(false);
                    }
                },
            }
            k2 += 1;
        }
    }

    /// Moves the primary cursor by `ofs` rows, clamped to the entry
    /// range, and reports how far it actually moved. With no entries
    /// nothing moves.
    pub fn inc_sel(&mut self, ofs: isize) -> (moved: isize)
        requires
            old(self).wf(),
            old(self).entries@.len() <= isize::MAX as nat,
        ensures
            final(self).wf(),
            final(self).geo == old(self).geo,
            final(self).dir@ == old(self).dir@,
            final(self).scroll == old(self).scroll,
            final(self).entries@ == old(self).entries@,
            final(self).sorted_indices@ == old(self).sorted_indices@,
            old(self).entries@.len() == 0 ==> *final(self) == *old(self) && moved == 0,
            moved == 0 ==> *final(self) == *old(self),
            old(self).entries@.len() > 0 ==> {
                let n = old(self).entries@.len() as int;
                let t = old(self).sel@[0] + ofs;
                let clamped = if t < 0 {
                    0
                } else if t > n - 1 {
                    n - 1
                } else {
                    t
                };
                &&& final(self).sel@ == old(self).sel@.update(0, clamped as usize)
                &&& moved == clamped - old(self).sel@[0]
            },
    {
        let n = self.entries.len();
        if n == 0 {
            return 0;
        }
        let cur = self.sel[0];
        if ofs >= 0 {
            let up = ofs as usize;
            let room = n - 1 - cur;
            let step = if up < room {
                up
            } else {
                room
            };
            if step > 0 {
                self.sel[0] = cur + step;
                proof {
                    assert(self.sel@ == old(self).sel@.update(0, (cur + step) as usize));
                }
            } else {
                proof {
                    assert(self.sel@ =~= old(self).sel@.update(0, cur as usize));
                }
            }
            step as isize
        } else {
            // `cur` fits in isize because the entry count does.
            if ofs + (cur as isize) <= 0 {
                if cur > 0 {
                    self.sel[0] = 0;
                } else {
                    proof {
                        assert(self.sel@ =~= old(self).sel@.update(0, 0usize));
                    }
                }
                -(cur as isize)
            } else {
                self.sel[0] = ((cur as isize) + ofs) as usize;
                ofs
            }
        }
    }

    /// Scrolls just far enough that the primary cursor's row lies in
    /// the visible window `[scroll, scroll + height)`.
    pub fn ensure_sel_in_view(&mut self)
        requires
            old(self).wf(),
        ensures
            final(self).wf(),
            final(self).geo == old(self).geo,
            final(self).dir@ == old(self).dir@,
            final(self).entries@ == old(self).entries@,
            final(self).sorted_indices@ == old(self).sorted_indices@,
            final(self).sel@ == old(self).sel@,
            final(self).scroll == {
                let row = old(self).sel@[0] as int;
                let h = old(self).geo.h as int;
                if row >= old(self).scroll + h {
                    row - h + 1
                } else if row < old(self).scroll {
                    row
                } else {
                    old(self).scroll as int
                }
            },
            old(self).geo.h > 0 ==> final(self).scroll <= old(self).sel@[0] < final(self).scroll
                + old(self).geo.h,
    {
        proof {
            assert(self.entries.len() == self.entries@.len());
            if self.entries@.len() > 0 {
                assert(self.sel@[0] < self.entries@.len());
            } else {
                assert(self.sel@[0] == 0);
            }
        }
        let row = self.sel[0];
        let h = self.geo.h as usize;
        if row >= self.scroll && row - self.scroll >= h {
            self.scroll = row - h + 1;
        } else if row < self.scroll {
            self.scroll = row;
        }
    }

    /// Puts the primary cursor on the first row, when any entries
    /// exist.
    pub fn select_first(&mut self)
        requires
            old(self).wf(),
        ensures
            final(self).wf(),
            final(self).geo == old(self).geo,
            final(self).dir@ == old(self).dir@,
            final(self).scroll == old(self).scroll,
            final(self).entries@ == old(self).entries@,
            final(self).sorted_indices@ == old(self).sorted_indices@,
            old(self).entries@.len() > 0 ==> final(self).sel@ == old(self).sel@.update(0, 0usize),
            old(self).entries@.len() == 0 ==> *final(self) == *old(self),
    {
        proof {
            assert(self.entries.len() == self.entries@.len());
            lemma_index_permutation_properties(self.sorted_indices@, self.entries@.len());
        }
        if self.sel.len() > 0 && self.sorted_indices.len() > 0 {
            self.sel[0] = 0;
        }
    }

    /// First sorted row at or after `from` whose entry has the given
    /// name.
    pub open spec fn first_match(
        es: Seq<Entry>,
        si: Seq<usize>,
        name: Seq<char>,
        from: int,
    ) -> Option<int>
        decreases si.len() - from,
    {
        if from < 0 || from >= si.len() {
            None
        } else if es[si[from] as int].name@ == name {
            Some(from)
        } else {
            Self::first_match(es, si, name, from + 1)
        }
    }

    /// Moves the primary cursor to the first sorted row showing an
    /// entry of the given name; an absent name leaves the selection
    /// alone.
    pub fn select_by_name(&mut self, name: String)
        requires
            old(self).wf(),
        ensures
            final(self).wf(),
            final(self).geo == old(self).geo,
            final(self).dir@ == old(self).dir@,
            final(self).scroll == old(self).scroll,
            final(self).entries@ == old(self).entries@,
            final(self).sorted_indices@ == old(self).sorted_indices@,
            match Self::first_match(
                old(self).entries@,
                old(self).sorted_indices@,
                name@,
                0,
            ) {
                Some(p) => final(self).sel@ == old(self).sel@.update(0, p as usize),
                None => *final(self) == *old(self),
            },
    {
        proof {
            assert(self.entries.len() == self.entries@.len());
            lemma_index_permutation_properties(self.sorted_indices@, self.entries@.len());
        }
        let mut i: usize = 0;
        while i < self.sorted_indices.len()
            invariant
                self.wf(),
                self.geo == old(self).geo,
                self.dir == old(self).dir,
                self.scroll == old(self).scroll,
                self.entries == old(self).entries,
                self.sorted_indices == old(self).sorted_indices,
                self.sel == old(self).sel,
                i <= self.sorted_indices@.len(),
                Self::first_match(self.entries@, self.sorted_indices@, name@, 0)
                    == Self::first_match(self.entries@, self.sorted_indices@, name@, i as int),
                forall|j: int|
                    0 <= j < self.sorted_indices@.len() ==> (#[trigger] self.sorted_indices@[j])
                        < self.entries@.len(),
            decreases self.sorted_indices@.len() - i,
        {
            if self.entries[self.sorted_indices[i]].name == name {
                self.sel[0] = i;
                proof {
                    assert(self.sel@ == old(self).sel@.update(0, i as usize));
                    assert(self.entries.len() == self.entries@.len());
                    lemma_index_permutation_properties(self.sorted_indices@, self.entries@.len());
                    assert(self.entries@.len() > 0);
                    assert forall|k: int|
                        0 <= k < self.sel@.len() implies (#[trigger] self.sel@[k])
                        < self.entries@.len() by {
                        if k != 0 {
                            assert(self.sel@[k] == old(self).sel@[k]);
                        }
                    }
                }
                return ;
            }
            i += 1;
        }
    }

    /// The directory this pane shows.
    pub fn dir_path(&self) -> (r: &CanonPath)
        ensures
            r@ == self.dir@,
    {
        &self.dir
    }

    /// The file name of this pane's own directory.
    pub fn dir_file_name(&self) -> (r: String)
        requires
            self.dir@.len() > 0,
        ensures
            r@ == self.dir@.last(),
    {
        self.dir.last_name()
    }

    /// The path of the selected entry, when there is one.
    pub fn sel_path(&self) -> (r: Option<CanonPath>)
        requires
            self.wf(),
        ensures
            match r {
                Some(p) => self.sel_path_spec() == Some(p@),
                None => self.sel_path_spec() is None,
            },
    {
        if self.entries.len() == 0 {
            None
        } else {
            proof {
                assert(self.entries.len() == self.entries@.len());
                lemma_index_permutation_properties(self.sorted_indices@, self.entries@.len());
            }
            let idx = self.sorted_indices[self.sel[0]];
            Some(self.dir.child(&self.entries[idx].name))
        }
    }

    /// The file name of the selected entry, when there is one.
    pub fn sel_file_name(&self) -> (r: Option<String>)
        requires
            self.wf(),
        ensures
            match r {
                Some(s) => self.sel_name_spec() == Some(s@),
                None => self.sel_name_spec() is None,
            },
    {
        if self.entries.len() == 0 {
            None
        } else {
            proof {
                assert(self.entries.len() == self.entries@.len());
                lemma_index_permutation_properties(self.sorted_indices@, self.entries@.len());
            }
            let idx = self.sorted_indices[self.sel[0]];
            Some(self.entries[idx].name.clone())
        }
    }

    /// The kind of the selected entry, when there is one.
    pub fn sel_kind(&self) -> (r: Option<EntryKind>)
        requires
            self.wf(),
        ensures
            r == self.sel_kind_spec(),
    {
        if self.entries.len() == 0 {
            None
        } else {
            proof {
                assert(self.entries.len() == self.entries@.len());
                lemma_index_permutation_properties(self.sorted_indices@, self.entries@.len());
            }
            let idx = self.sorted_indices[self.sel[0]];
            Some(self.entries[idx].kind)
        }
    }

    /// The path of the entry at an original index.
    pub fn entry_path(&self, i: usize) -> (r: CanonPath)
        requires
            i < self.entries@.len(),
        ensures
            r@ == self.dir@.push(self.entries@[i as int].name@),
    {
        self.dir.child(&self.entries[i].name)
    }

    /// The file name of the entry at an original index.
    pub fn entry_file_name(&self, i: usize) -> (r: String)
        requires
            i < self.entries@.len(),
        ensures
            r@ == self.entries@[i as int].name@,
    {
        self.entries[i].name.clone()
    }

    /// How many entries the last scan found.
    pub fn entry_count(&self) -> (r: usize)
        ensures
            r == self.entries@.len(),
    {
        self.entries.len()
    }

    /// A fresh, unscanned pane for the selected entry, when that
    /// entry is a directory.
    pub fn make_selected_dir_view(&self) -> (r: Option<DirView>)
        requires
            self.wf(),
        ensures
            match r {
                Some(d) => {
                    &&& self.sel_kind_spec() == Some(EntryKind::Dir)
                    &&& Some(d.dir@) == self.sel_path_spec()
                    &&& d.geo == self.geo
                    &&& d.sel@ == seq![0usize]
                    &&& d.scroll == 0
                    &&& d.entries@.len() == 0
                    &&& d.sorted_indices@.len() == 0
                    &&& d.wf()
                },
                None => self.sel_kind_spec() != Some(EntryKind::Dir),
            },
    {
        match self.sel_kind() {
            Some(EntryKind::Dir) => {
                let p = match self.sel_path() {
                    Some(p) => p,
                    None => {
                        proof {
                            assert(false);
                        }
                        CanonPath::root()
                    },
                };
                Some(DirView::new(self.geo, p))
            },
            _ => None,
        }
    }

    /// A fresh, unscanned pane for this directory's parent, or
    /// nothing at the filesystem root.
    pub fn make_parent_dir_view(&self) -> (r: Option<DirView>)
        ensures
            match r {
                Some(d) => {
                    &&& self.dir@.len() > 0
                    &&& d.dir@ == self.dir@.drop_last()
                    &&& d.geo == self.geo
                    &&& d.sel@ == seq![0usize]
                    &&& d.scroll == 0
                    &&& d.entries@.len() == 0
                    &&& d.sorted_indices@.len() == 0
                    &&& d.wf()
                },
                None => self.dir@.len() == 0,
            },
    {
        match self.dir.parent() {
            Some(p) => Some(DirView::new(self.geo, p)),
            None => None,
        }
    }
}

/// A name that occurs at all is found: `first_match` returns the
/// earliest row at or after `from` showing it.
pub proof fn lemma_first_match_finds(es: Seq<Entry>, si: Seq<usize>, name: Seq<char>, from: int)
    requires
        0 <= from,
        exists|j: int| from <= j < si.len() && (#[trigger] es[si[j] as int].name)@ == name,
    ensures
        match DirView::first_match(es, si, name, from) {
            Some(p) => from <= p < si.len() && es[si[p] as int].name@ == name,
            None => false,
        },
    decreases si.len() - from,
{
    let j0 = choose|j: int| from <= j < si.len() && (#[trigger] es[si[j] as int].name)@ == name;
    if es[si[from] as int].name@ != name {
        assert(j0 > from);
        lemma_first_match_finds(es, si, name, from + 1);
    }
}

/// Round trip: the parent pane derived from a child pane that was
/// itself derived from the selected directory of `d` shows `d`'s own
/// directory again; and once that parent is scanned and the child's
/// name selected by name, the selected path is the child's directory
/// again.
pub proof fn lemma_child_parent_round_trip(
    d: DirView,
    child_dir: Seq<Seq<char>>,
    parent: DirView,
    scanned: DirView,
    selected: DirView,
    fs: Fs,
)
    requires
        d.wf(),
        d.sel_kind_spec() == Some(EntryKind::Dir),
        d.sel_path_spec() == Some(child_dir),
        // `parent` as `make_parent_dir_view` returns it for the child pane
        parent.dir@ == child_dir.drop_last(),
        parent.sel@ == seq![0usize],
        parent.entries@.len() == 0,
        // `scanned` as a successful `scan_dir` leaves `parent`
        scanned.dir@ == parent.dir@,
        fs.listing_of(parent.dir@) == Some(scanned.entries@),
        scanned.sorted_indices@ == identity_indices(scanned.entries@.len()),
        scanned.sel@ == parent.sel@,
        // `selected` as `select_by_name` of the child's name leaves `scanned`
        selected.dir@ == scanned.dir@,
        selected.entries@ == scanned.entries@,
        selected.sorted_indices@ == scanned.sorted_indices@,
        (match DirView::first_match(
            scanned.entries@,
            scanned.sorted_indices@,
            child_dir.last(),
            0,
        ) {
            Some(pz) => selected.sel@ == scanned.sel@.update(0, pz as usize),
            None => selected.sel@ == scanned.sel@,
        }),
        scanned.entries@.len() <= usize::MAX as nat,
        // the re-scanned listing still holds the child's name
        exists|i: int|
            0 <= i < scanned.entries@.len() && (#[trigger] scanned.entries@[i].name)@
                == child_dir.last(),
    ensures
        selected.dir@ == d.dir@,
        selected.sel_path_spec() == Some(child_dir),
{
    let name = d.sel_name_spec()->Some_0;
    assert(child_dir == d.dir@.push(name));
    assert(child_dir.drop_last() =~= d.dir@);
    assert(child_dir.last() == name);
    let es = scanned.entries@;
    let si = scanned.sorted_indices@;
    assert forall|i: int|
        0 <= i < es.len() implies (#[trigger] si[i]) == i as usize by {
        assert(si[i] == identity_indices(es.len())[i]);
    }
    let i0 = choose|i: int| 0 <= i < es.len() && (#[trigger] es[i].name)@ == child_dir.last();
    assert(es[si[i0] as int].name@ == child_dir.last());
    lemma_first_match_finds(es, si, child_dir.last(), 0);
    let pz = DirView::first_match(es, si, child_dir.last(), 0)->Some_0;
    assert(selected.sel@ == scanned.sel@.update(0, pz as usize));
    assert(selected.sel@[0] == pz as usize);
    assert(es[si[pz] as int].name@ == name);
    assert(selected.sel_name_spec() == Some(name));
    assert(selected.sel_path_spec() == Some(selected.dir@.push(name)));
    assert(selected.dir@.push(name) =~= child_dir);
}

/// One visible row of a directory pane, ready to draw: the entry's
/// name, its kind, and whether it is selected.
pub struct RowInfo {
    pub name: String,
    pub kind: EntryKind,
    pub selected: bool,
}

impl DirView {
    /// Whether a sorted row is in the selection.
    pub fn row_selected(&self, row: usize) -> (r: bool)
        ensures
            r == self.sel@.contains(row),
    {
        let mut i: usize = 0;
        while i < self.sel.len()
            invariant
                i <= self.sel@.len(),
                forall|j: int| 0 <= j < i as int ==> (#[trigger] self.sel@[j]) != row,
            decreases self.sel@.len() - i,
        {
            if self.sel[i] == row {
                return true;
            }
            i += 1;
        }
        proof {
            if self.sel@.contains(row) {
                let j = choose|j: int| 0 <= j < self.sel@.len() && self.sel@[j] == row;
                assert(false);
            }
        }
        false
    }

    /// The rows the pane shows, from the scroll position down, at
    /// most one per line of its height, in display order.
    pub fn visible_rows(&self) -> (r: Vec<RowInfo>)
        requires
            self.wf(),
        ensures
            r@.len() == (if (self.scroll as int) < self.sorted_indices@.len() {
                vstd::math::min(self.geo.h as int, self.sorted_indices@.len() - self.scroll as int)
            } else {
                0int
            }),
            forall|j: int|
                0 <= j < r@.len() ==> {
                    let e = self.entries@[self.sorted_indices@[self.scroll + j] as int];
                    &&& (#[trigger] r@[j]).name@ == e.name@
                    &&& r@[j].kind == e.kind
                    &&& r@[j].selected == self.sel@.contains((self.scroll + j) as usize)
                },
    {
        proof {
            assert(self.entries.len() == self.entries@.len());
            lemma_index_permutation_properties(self.sorted_indices@, self.entries@.len());
        }
        let mut out: Vec<RowInfo> = Vec::new();
        let h = self.geo.h as usize;
        let avail = if self.scroll < self.sorted_indices.len() {
            self.sorted_indices.len() - self.scroll
        } else {
            0
        };
        let cap = if h < avail {
            h
        } else {
            avail
        };
        let mut i: usize = 0;
        while i < cap
            invariant
                self.wf(),
                i <= cap,
                cap as int == (if (self.scroll as int) < self.sorted_indices@.len() {
                    vstd::math::min(self.geo.h as int, self.sorted_indices@.len() - self.scroll as int)
                } else {
                    0int
                }),
                cap > 0 ==> self.scroll + cap <= self.sorted_indices@.len(),
                out@.len() == i as int,
                forall|k: int| 0 <= k < self.sorted_indices@.len() ==> (
                #[trigger] self.sorted_indices@[k]) < self.entries@.len(),
                forall|j: int|
                    0 <= j < i as int ==> {
                        let e = self.entries@[self.sorted_indices@[self.scroll + j] as int];
                        &&& (#[trigger] out@[j]).name@ == e.name@
                        &&& out@[j].kind == e.kind
                        &&& out@[j].selected == self.sel@.contains((self.scroll + j) as usize)
                    },
            decreases cap - i,
        {
            proof {
                assert(self.sorted_indices.len() == self.sorted_indices@.len());
                assert(self.scroll + i < self.sorted_indices@.len());
            }
            let row = self.scroll + i;
            let idx = self.sorted_indices[row];
            let selected = self.row_selected(row);
            out.push(RowInfo { name: self.entries[idx].name.clone(), kind: self.entries[idx].kind, selected });
            i += 1;
        }
        out
    }
}

} // verus!
