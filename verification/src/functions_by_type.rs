//! Which functions of a program have which type.

use vstd::prelude::*;
use std::collections::HashMap;
use crate::ir::{Function, TypeRef};
use crate::name_index::string_views;

verus! {

broadcast use vstd::std_specs::hash::group_hash_axioms;

/// The functions that a sequence of references leads to.
pub open spec fn program(functions: Seq<&Function>) -> Seq<Function> {
    Seq::new(functions.len(), |i: int| *functions[i])
}

/// Whether function `i` has the type `ty` and the name `name`.
pub open spec fn typed(functions: Seq<Function>, i: int, ty: TypeRef, name: Seq<char>) -> bool {
    functions[i].ty == ty && functions[i].name@ == name
}

/// The names of those among the first `k` functions that have the type `ty`.
pub open spec fn names_upto(functions: Seq<Function>, k: int, ty: TypeRef) -> Set<Seq<char>> {
    Set::new(|name: Seq<char>| exists|i: int| 0 <= i < k && i < functions.len() && #[trigger] typed(functions, i, ty, name))
}

/// The names of the functions that have the type `ty`.
pub open spec fn names_with_type(functions: Seq<Function>, ty: TypeRef) -> Set<Seq<char>> {
    names_upto(functions, functions.len() as int, ty)
}

/// The strings that a sequence of strings stands for.
pub open spec fn owned_views(names: Seq<&String>) -> Seq<Seq<char>> {
    Seq::new(names.len(), |i: int| names[i]@)
}

/// For each function type, the names of the functions that have it.
pub struct FunctionsByType<'m> {
    /// By the number of a type, the names of the functions of that type.
    map: HashMap<u64, Vec<&'m String>>,
    /// The functions that were indexed.
    source: Ghost<Seq<Function>>,
}

impl<'m> FunctionsByType<'m> {
    /// The functions that were indexed.
    pub closed spec fn functions(&self) -> Seq<Function> {
        self.source@
    }

    /// Whether the map holds what the first `k` functions give.
    spec fn holds_upto(map: Map<u64, Vec<&'m String>>, functions: Seq<Function>, k: int) -> bool {
        &&& forall|key: u64| #[trigger] map.contains_key(key) ==> owned_views(map[key]@).no_duplicates()
        &&& forall|key: u64, name: Seq<char>|
            #![trigger owned_views(map[key]@).contains(name)]
            #![trigger names_upto(functions, k, TypeRef { id: key }).contains(name)]
            (map.contains_key(key) && owned_views(map[key]@).contains(name)) <==> names_upto(
                functions,
                k,
                TypeRef { id: key },
            ).contains(name)
    }

    /// What holds of every index: under each type stand the names of the
    /// functions of that type, each once.
    pub closed spec fn well_formed(&self) -> bool {
        Self::holds_upto(self.map@, self.source@, self.source@.len() as int)
    }

    /// The index of `functions`.
    pub fn new(functions: &Vec<&'m Function>) -> (r: Self)
        ensures
            r.well_formed(),
            r.functions() == program(functions@),
    {
        let ghost all = program(functions@);
        let mut map: HashMap<u64, Vec<&'m String>> = HashMap::new();
        let mut i: usize = 0;
        while i < functions.len()
            invariant
                i <= functions.len(),
                all == program(functions@),
                Self::holds_upto(map@, all, i as int),
            decreases functions.len() - i,
        {
            let f: &'m Function = functions[i];
            let key = f.ty.id;
            let ghost before = map@;
            let mut list: Vec<&'m String> = match map.remove(&key) {
                Some(list) => list,
                None => Vec::new(),
            };
            let ghost earlier = owned_views(list@);
            let ghost middle = map@;
            proof {
                assert(middle == before.remove(key));
                assert(earlier.no_duplicates()) by {
                    if before.contains_key(key) {
                        assert(list@ == before[key]@);
                    }
                }
                assert(forall|name: Seq<char>|
                    earlier.contains(name) <==> (before.contains_key(key) && owned_views(before[key]@).contains(name)));
            }
            let mut found = false;
            let mut j: usize = 0;
            while j < list.len()
                invariant
                    j <= list.len(),
                    earlier == owned_views(list@),
                    found <==> exists|m: int| 0 <= m < j && earlier[m] == f.name@,
                decreases list.len() - j,
            {
                if *list[j] == f.name {
                    found = true;
                    assert(earlier[j as int] == f.name@);
                }
                j += 1;
            }
            if !found {
                list.push(&f.name);
            }
            let ghost later = owned_views(list@);
            proof {
                if found {
                    assert(later == earlier);
                    assert(earlier.contains(f.name@));
                } else {
                    assert(later =~= earlier.push(f.name@));
                    assert(!earlier.contains(f.name@));
                    assert(later.no_duplicates());
                }
                assert forall|name: Seq<char>| later.contains(name) <==> (earlier.contains(name) || name == f.name@) by {
                    if later.contains(name) && !found {
                        let m = choose|m: int| 0 <= m < later.len() && later[m] == name;
                        if m < earlier.len() {
                            assert(earlier[m] == name);
                        }
                    }
                    if earlier.contains(name) && !found {
                        let m = choose|m: int| 0 <= m < earlier.len() && earlier[m] == name;
                        assert(later[m] == name);
                    }
                    if name == f.name@ && !found {
                        assert(later[earlier.len() as int] == name);
                    }
                }
            }
            map.insert(key, list);
            proof {
                assert(all[i as int] == *f);
                assert forall|k: u64| #[trigger] map@.contains_key(k) implies owned_views(map@[k]@).no_duplicates() by {
                    if k != key {
                        assert(before.contains_key(k));
                    }
                }
                assert(map@ == middle.insert(key, list));
                assert forall|k: u64, name: Seq<char>|
                    #![trigger owned_views(map@[k]@).contains(name)]
                    #![trigger names_upto(all, i + 1, TypeRef { id: k }).contains(name)]
                    (map@.contains_key(k) && owned_views(map@[k]@).contains(name)) <==> names_upto(
                        all,
                        i + 1,
                        TypeRef { id: k },
                    ).contains(name) by {
                    let ty = TypeRef { id: k };
                    if k != key {
                        assert(map@.contains_key(k) == before.contains_key(k));
                        if before.contains_key(k) {
                            assert(map@[k] == before[k]);
                        }
                    } else {
                        assert(map@[k] == list);
                    }
                    if names_upto(all, i + 1, ty).contains(name) {
                        let m = choose|m: int| 0 <= m < i + 1 && m < all.len() && #[trigger] typed(all, m, ty, name);
                        if m < i {
                            assert(names_upto(all, i as int, ty).contains(name));
                            assert(before.contains_key(k) && owned_views(before[k]@).contains(name));
                        } else {
                            assert(k == key);
                        }
                    }
                    if map@.contains_key(k) && owned_views(map@[k]@).contains(name) {
                        if k != key {
                            assert(before.contains_key(k) && owned_views(before[k]@).contains(name));
                            assert(names_upto(all, i as int, ty).contains(name));
                            let m = choose|m: int| 0 <= m < i && m < all.len() && #[trigger] typed(all, m, ty, name);
                            assert(typed(all, m, ty, name));
                        } else {
                            if earlier.contains(name) {
                                assert(names_upto(all, i as int, ty).contains(name));
                                let m = choose|m: int| 0 <= m < i && m < all.len() && #[trigger] typed(all, m, ty, name);
                                assert(typed(all, m, ty, name));
                            } else {
                                assert(typed(all, i as int, ty, name));
                            }
                        }
                    }
                }
            }
            i += 1;
        }
        FunctionsByType { map, source: Ghost(all) }
    }

    /// The names of the functions that have the type `ty`, each of them once.
    pub(crate) fn lookup(&self, ty: &TypeRef) -> (r: Vec<&'m String>)
        requires
            self.well_formed(),
        ensures
            owned_views(r@).no_duplicates(),
            forall|name: Seq<char>|
                owned_views(r@).contains(name) <==> names_with_type(self.functions(), *ty).contains(name),
    {
        let mut r: Vec<&'m String> = Vec::new();
        match self.map.get(&ty.id) {
            Some(list) => {
                let mut i: usize = 0;
                while i < list.len()
                    invariant
                        i <= list.len(),
                        r@ == list@.subrange(0, i as int),
                    decreases list.len() - i,
                {
                    r.push(list[i]);
                    proof {
                        assert(r@ =~= list@.subrange(0, i + 1));
                    }
                    i += 1;
                }
                proof {
                    assert(r@ =~= list@);
                    assert(self.map@.contains_key(ty.id));
                    assert(TypeRef { id: ty.id } == *ty);
                }
            },
            None => {
                proof {
                    assert(!self.map@.contains_key(ty.id));
                    assert(TypeRef { id: ty.id } == *ty);
                    assert forall|name: Seq<char>| !owned_views(r@).contains(name) by {}
                }
            },
        }
        r
    }

    /// The names of the functions that have the type `ty`, each of them
    /// once; none if no function has it.
    pub fn functions_with_type(&self, ty: &TypeRef) -> (r: Vec<&'m str>)
        requires
            self.well_formed(),
        ensures
            string_views(r@).no_duplicates(),
            forall|name: Seq<char>|
                string_views(r@).contains(name) <==> names_with_type(self.functions(), *ty).contains(name),
    {
        let list = self.lookup(ty);
        let mut r: Vec<&'m str> = Vec::new();
        let mut i: usize = 0;
        while i < list.len()
            invariant
                i <= list.len(),
                r.len() == i,
                forall|j: int| 0 <= j < i ==> (#[trigger] r@[j])@ == list@[j]@,
            decreases list.len() - i,
        {
            let name: &'m String = list[i];
            r.push(name.as_str());
            i += 1;
        }
        proof {
            assert(string_views(r@) =~= owned_views(list@));
        }
        r
    }
}

} // verus!
