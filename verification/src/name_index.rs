//! The names of the functions of a program, numbered in the order in which
//! they were first met.  No name has two numbers.

use vstd::prelude::*;

verus! {

/// The strings that a sequence of strings stands for.
pub open spec fn string_views(names: Seq<&str>) -> Seq<Seq<char>> {
    Seq::new(names.len(), |i: int| names[i]@)
}

/// The names of functions; the number of a name is its position.
pub struct NameIndex<'m> {
    names: Vec<&'m String>,
}

impl<'m> NameIndex<'m> {
    /// The names in the index, in order.
    pub closed spec fn views(&self) -> Seq<Seq<char>> {
        Seq::new(self.names@.len(), |i: int| self.names@[i]@)
    }

    /// No name stands in the index twice.
    pub closed spec fn well_formed(&self) -> bool {
        self.views().no_duplicates()
    }

    /// No name stands in a well-formed index twice.
    pub proof fn lemma_distinct(&self)
        requires
            self.well_formed(),
        ensures
            self.views().no_duplicates(),
    {
    }

    /// An empty index.
    pub fn new() -> (t: Self)
        ensures
            t.well_formed(),
            t.views() == Seq::<Seq<char>>::empty(),
    {
        let t = NameIndex { names: Vec::new() };
        assert(t.views() =~= Seq::<Seq<char>>::empty());
        t
    }

    /// The number of `name`, if the index holds it.
    pub fn find(&self, name: &String) -> (r: Option<usize>)
        ensures
            match r {
                Some(id) => id < self.views().len() && self.views()[id as int] == name@,
                None => !self.views().contains(name@),
            },
    {
        let mut i: usize = 0;
        while i < self.names.len()
            invariant
                i <= self.names.len(),
                forall|j: int| 0 <= j < i ==> self.views()[j] != name@,
            decreases self.names.len() - i,
        {
            if *self.names[i] == *name {
                return Some(i);
            }
            i += 1;
        }
        None
    }

    /// The number of `name`, which joins the index if it is not in it yet.
    pub fn intern(&mut self, name: &'m String) -> (id: usize)
        requires
            old(self).well_formed(),
        ensures
            final(self).well_formed(),
            id < final(self).views().len(),
            final(self).views()[id as int] == name@,
            final(self).views() == old(self).views() || final(self).views() == old(self).views().push(name@),
            old(self).views().contains(name@) ==> final(self).views() == old(self).views(),
    {
        match self.find(name) {
            Some(id) => id,
            None => {
                let id = self.names.len();
                self.names.push(name);
                proof {
                    assert(self.views() =~= old(self).views().push(name@));
                }
                id
            },
        }
    }

    /// The names with the numbers `ids`, in the same order.
    pub fn names(&self, ids: &Vec<usize>) -> (r: Vec<&'m str>)
        requires
            self.well_formed(),
            ids@.no_duplicates(),
            forall|i: int| 0 <= i < ids.len() ==> (#[trigger] ids@[i]) < self.views().len(),
        ensures
            r.len() == ids.len(),
            forall|i: int| 0 <= i < ids.len() ==> (#[trigger] r@[i])@ == self.views()[ids@[i] as int],
            string_views(r@).no_duplicates(),
    {
        let mut r: Vec<&'m str> = Vec::new();
        let mut i: usize = 0;
        while i < ids.len()
            invariant
                i <= ids.len(),
                r.len() == i,
                forall|i: int| 0 <= i < ids.len() ==> (#[trigger] ids@[i]) < self.views().len(),
                forall|j: int| 0 <= j < i ==> (#[trigger] r@[j])@ == self.views()[ids@[j] as int],
            decreases ids.len() - i,
        {
            let name: &'m String = self.names[ids[i]];
            r.push(name.as_str());
            i += 1;
        }
        proof {
            let views = string_views(r@);
            assert forall|i: int, j: int| 0 <= i < views.len() && 0 <= j < views.len() && i != j implies views[i]
                != views[j] by {
                assert(r@[i]@ == self.views()[ids@[i] as int]);
                assert(r@[j]@ == self.views()[ids@[j] as int]);
            }
        }
        r
    }
}

} // verus!
