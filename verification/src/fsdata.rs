use vstd::prelude::*;
use crate::path::CanonPath;

verus! {

/// What kind of filesystem object a directory entry is.
#[derive(Clone, Copy, PartialEq, Eq, Structural, Debug)]
pub enum EntryKind {
    Dir,
    File,
    Other,
}

/// One directory entry as one scan saw it: its file name and kind.
pub struct Entry {
    pub name: String,
    pub kind: EntryKind,
}

impl Entry {
    pub fn new(name: String, kind: EntryKind) -> (r: Entry)
        ensures
            r == (Entry { name, kind }),
    {
        Entry { name, kind }
    }

    /// A value-equal copy.
    pub fn duplicate(&self) -> (r: Entry)
        ensures
            r == *self,
    {
        Entry { name: self.name.clone(), kind: self.kind }
    }
}

/// A value-equal copy of a whole listing.
pub fn duplicate_entries(v: &Vec<Entry>) -> (r: Vec<Entry>)
    ensures
        r@ == v@,
{
    let mut r: Vec<Entry> = Vec::new();
    let mut i: usize = 0;
    while i < v.len()
        invariant
            i <= v@.len(),
            r@.len() == i as int,
            forall|j: int| 0 <= j < i as int ==> r@[j] == #[trigger] v@[j],
        decreases v@.len() - i,
    {
        r.push(v[i].duplicate());
        i += 1;
    }
    proof {
        assert(r@ =~= v@);
    }
    r
}

/// Which directory listing, if any, a row sequence holds for a key.
pub open spec fn fs_lookup(rows: Seq<(CanonPath, Vec<Entry>)>, key: Seq<Seq<char>>) -> Option<
    Seq<Entry>,
>
    decreases rows.len(),
{
    if rows.len() == 0 {
        None
    } else if rows[0].0@ == key {
        Some(rows[0].1@)
    } else {
        fs_lookup(rows.drop_first(), key)
    }
}

proof fn lemma_fs_lookup_skip(rows: Seq<(CanonPath, Vec<Entry>)>, i: int, key: Seq<Seq<char>>)
    requires
        0 <= i < rows.len(),
        rows[i].0@ != key,
    ensures
        fs_lookup(rows.skip(i), key) == fs_lookup(rows.skip(i + 1), key),
{
    assert(rows.skip(i).len() > 0);
    assert(rows.skip(i)[0] == rows[i]);
    assert(rows.skip(i).drop_first() =~= rows.skip(i + 1));
}

/// A snapshot of the part of the filesystem the engine has looked at:
/// for each readable directory, its listing. A directory that cannot
/// be read (or does not exist) has no row.
pub struct Fs {
    pub dirs: Vec<(CanonPath, Vec<Entry>)>,
}

impl Fs {
    pub open spec fn listing_of(&self, key: Seq<Seq<char>>) -> Option<Seq<Entry>> {
        fs_lookup(self.dirs@, key)
    }

    pub fn new() -> (r: Fs)
        ensures
            r.dirs@.len() == 0,
            forall|k: Seq<Seq<char>>| r.listing_of(k) is None,
    {
        Fs { dirs: Vec::new() }
    }

    /// Records the listing of one directory. A newer row shadows an
    /// older row with the same path.
    pub fn add_dir(&mut self, p: &CanonPath, listing: Vec<Entry>)
        ensures
            final(self).listing_of(p@) == Some(listing@),
            forall|k: Seq<Seq<char>>|
                k != p@ ==> #[trigger] final(self).listing_of(k) == old(self).listing_of(k),
    {
        let row = (p.duplicate(), listing);
        proof {
            let rows = old(self).dirs@;
            let newrows = rows.insert(0, row);
            assert(newrows.drop_first() =~= rows);
        }
        self.dirs.insert(0, row);
    }

    /// Looks a directory up in the snapshot.
    pub fn listing<'a>(&'a self, p: &CanonPath) -> (r: Option<&'a Vec<Entry>>)
        ensures
            match r {
                Some(v) => self.listing_of(p@) == Some(v@),
                None => self.listing_of(p@) is None,
            },
    {
        let mut i: usize = 0;
        proof {
            assert(self.dirs@.skip(0) =~= self.dirs@);
        }
        while i < self.dirs.len()
            invariant
                i <= self.dirs@.len(),
                fs_lookup(self.dirs@.skip(i as int), p@) == fs_lookup(self.dirs@, p@),
            decreases self.dirs@.len() - i,
    {
            if self.dirs[i].0.path_eq(p) {
                proof {
                    assert(self.dirs@.skip(i as int)[0] == self.dirs@[i as int]);
                }
                return Some(&self.dirs[i].1);
            }
            proof {
                lemma_fs_lookup_skip(self.dirs@, i as int, p@);
            }
            i += 1;
        }
        proof {
            assert(self.dirs@.skip(self.dirs@.len() as int).len() == 0);
        }
        None
    }
}

} // verus!
