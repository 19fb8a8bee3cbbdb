use vstd::prelude::*;

verus! {

/// A canonical absolute filesystem path: the sequence of its
/// components below the root. The root itself has no components.
pub struct CanonPath {
    pub parts: Vec<String>,
}

impl View for CanonPath {
    type V = Seq<Seq<char>>;

    open spec fn view(&self) -> Seq<Seq<char>> {
        Seq::new(self.parts@.len(), |i: int| self.parts@[i]@)
    }
}

impl CanonPath {
    /// The filesystem root.
    pub fn root() -> (r: CanonPath)
        ensures
            r@ == Seq::<Seq<char>>::empty(),
    {
        let r = CanonPath { parts: Vec::new() };
        proof {
            assert(r@ =~= Seq::<Seq<char>>::empty());
        }
        r
    }

    pub fn from_parts(parts: Vec<String>) -> (r: CanonPath)
        ensures
            r.parts@ == parts@,
    {
        CanonPath { parts }
    }

    /// A value-equal copy.
    pub fn duplicate(&self) -> (r: CanonPath)
        ensures
            r@ == self@,
    {
        let mut parts: Vec<String> = Vec::new();
        let mut i: usize = 0;
        while i < self.parts.len()
            invariant
                i <= self.parts@.len(),
                parts@.len() == i as int,
                forall|j: int| 0 <= j < i as int ==> parts@[j]@ == #[trigger] self.parts@[j]@,
            decreases self.parts@.len() - i,
        {
            parts.push(self.parts[i].clone());
            i += 1;
        }
        let r = CanonPath { parts };
        proof {
            assert(r@ =~= self@);
        }
        r
    }

    /// The path of the named child of this directory.
    pub fn child(&self, name: &String) -> (r: CanonPath)
        ensures
            r@ == self@.push(name@),
    {
        let mut r = self.duplicate();
        r.parts.push(name.clone());
        proof {
            assert(r@ =~= self@.push(name@));
        }
        r
    }

    /// The parent directory, or nothing at the root.
    pub fn parent(&self) -> (r: Option<CanonPath>)
        ensures
            self@.len() == 0 ==> r is None,
            self@.len() > 0 ==> r is Some && r->Some_0@ == self@.drop_last(),
    {
        if self.parts.len() == 0 {
            None
        } else {
            let mut p = self.duplicate();
            p.parts.pop();
            proof {
                assert(p@ =~= self@.drop_last());
            }
            Some(p)
        }
    }

    /// The last component: the file name this path ends in.
    pub fn last_name(&self) -> (r: String)
        requires
            self@.len() > 0,
        ensures
            r@ == self@.last(),
    {
        self.parts[self.parts.len() - 1].clone()
    }

    /// Value equality of two paths.
    pub fn path_eq(&self, other: &CanonPath) -> (r: bool)
        ensures
            r == (self@ == other@),
    {
        if self.parts.len() != other.parts.len() {
            proof {
                assert(self@.len() != other@.len());
            }
            return false;
        }
        let mut i: usize = 0;
        while i < self.parts.len()
            invariant
                i <= self.parts@.len(),
                self.parts@.len() == other.parts@.len(),
                forall|j: int| 0 <= j < i as int ==> self.parts@[j]@ == #[trigger] other.parts@[j]@,
            decreases self.parts@.len() - i,
        {
            if !(self.parts[i] == other.parts[i]) {
                proof {
                    assert(self@[i as int] != other@[i as int]);
                }
                return false;
            }
            i += 1;
        }
        proof {
            assert(self@ =~= other@);
        }
        true
    }
}

} // verus!
