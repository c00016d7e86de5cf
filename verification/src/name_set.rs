//! A finite set of names.

use vstd::prelude::*;

verus! {

/// What a sequence of strings stands for.
pub open spec fn texts(names: Seq<String>) -> Seq<Seq<char>> {
    names.map_values(|s: String| s@)
}

/// A set of names. Each name is held once.
pub struct NameSet {
    names: Vec<String>,
}

impl View for NameSet {
    type V = Set<Seq<char>>;

    closed spec fn view(&self) -> Set<Seq<char>> {
        texts(self.names@).to_set()
    }
}

impl NameSet {
    #[verifier::type_invariant]
    spec fn held_once(self) -> bool {
        texts(self.names@).no_duplicates()
    }

    /// The empty set.
    pub fn new() -> (set: NameSet)
        ensures
            set@ == Set::<Seq<char>>::empty(),
    {
        let set = NameSet { names: Vec::new() };
        assert(texts(set.names@) == Seq::<Seq<char>>::empty());
        assert(set@ == Set::<Seq<char>>::empty());
        set
    }

    fn position(&self, name: &String) -> (at: Option<usize>)
        ensures
            match at {
                Some(i) => i < self.names.len() && self.names@[i as int]@ == name@,
                None => !self@.contains(name@),
            },
    {
        let mut i: usize = 0;
        while i < self.names.len()
            invariant
                i <= self.names.len(),
                forall|j: int| 0 <= j < i ==> (#[trigger] self.names@[j])@ != name@,
            decreases self.names.len() - i,
        {
            if self.names[i] == *name {
                return Some(i);
            }
            i += 1;
        }
        proof {
            let all = texts(self.names@);
            if all.contains(name@) {
                let j = choose|j: int| 0 <= j < all.len() && all[j] == name@;
                assert(self.names@[j]@ == name@);
            }
        }
        None
    }

    /// Whether `name` is in the set.
    pub fn contains(&self, name: &str) -> (found: bool)
        ensures
            found == self@.contains(name@),
    {
        let probe = name.to_owned();
        match self.position(&probe) {
            Some(i) => {
                proof {
                    assert(texts(self.names@)[i as int] == name@);
                }
                true
            },
            None => false,
        }
    }

    /// The number of names in the set.
    pub fn len(&self) -> (n: usize)
        ensures
            n == self@.len(),
            self@.finite(),
    {
        proof {
            use_type_invariant(self);
            texts(self.names@).unique_seq_to_set();
        }
        self.names.len()
    }

    /// Puts `name` into the set. Gives `true` where the name was not yet in it.
    pub fn insert(&mut self, name: String) -> (fresh: bool)
        ensures
            final(self)@ == old(self)@.insert(name@),
            fresh == !old(self)@.contains(name@),
    {
        proof {
            use_type_invariant(&*self);
        }
        match self.position(&name) {
            Some(i) => {
                proof {
                    assert(texts(self.names@)[i as int] == name@);
                    assert(self@.insert(name@) == self@);
                }
                false
            },
            None => {
                let ghost before = texts(self.names@);
                let mut names: Vec<String> = Vec::new();
                assert(texts(names@) == Seq::<Seq<char>>::empty());
                core::mem::swap(&mut self.names, &mut names);
                names.push(name);
                assert(texts(names@) == before.push(name@));
                self.names = names;
                proof {
                    assert(texts(self.names@) == before.push(name@));
                    assert(before.push(name@).to_set() == before.to_set().insert(name@)) by {
                        assert forall|x: Seq<char>|
                            before.push(name@).to_set().contains(x) <==> before.to_set().insert(
                                name@,
                            ).contains(x) by {
                            if before.push(name@).contains(x) {
                                let j = choose|j: int|
                                    0 <= j < before.push(name@).len() && before.push(name@)[j]
                                        == x;
                                if j < before.len() {
                                    assert(before[j] == x);
                                }
                            }
                            if before.contains(x) {
                                let j = choose|j: int| 0 <= j < before.len() && before[j] == x;
                                assert(before.push(name@)[j] == x);
                            }
                            if x == name@ {
                                assert(before.push(name@)[before.len() as int] == x);
                            }
                        }
                    }
                }
                true
            },
        }
    }

    /// Takes `name` out of the set. Gives `true` where the name was in it.
    pub fn remove(&mut self, name: &str) -> (held: bool)
        ensures
            final(self)@ == old(self)@.remove(name@),
            held == old(self)@.contains(name@),
    {
        proof {
            use_type_invariant(&*self);
        }
        let probe = name.to_owned();
        match self.position(&probe) {
            Some(i) => {
                let ghost before = texts(self.names@);
                let mut names: Vec<String> = Vec::new();
                assert(texts(names@) == Seq::<Seq<char>>::empty());
                core::mem::swap(&mut self.names, &mut names);
                names.remove(i);
                assert(texts(names@) == before.remove(i as int));
                self.names = names;
                proof {
                    let after = texts(self.names@);
                    assert(after == before.remove(i as int));
                    assert(before[i as int] == name@);
                    assert forall|x: Seq<char>| after.to_set().contains(x) <==> before.to_set().remove(
                        name@,
                    ).contains(x) by {
                        if after.contains(x) {
                            let j = choose|j: int| 0 <= j < after.len() && after[j] == x;
                            if j < i {
                                assert(before[j] == x);
                            } else {
                                assert(before[j + 1] == x);
                            }
                        }
                        if before.contains(x) && x != name@ {
                            let j = choose|j: int| 0 <= j < before.len() && before[j] == x;
                            if j < i {
                                assert(after[j] == x);
                            } else {
                                assert(after[j - 1] == x);
                            }
                        }
                    }
                    assert(after.to_set() == before.to_set().remove(name@));
                }
                true
            },
            None => {
                proof {
                    assert(self@.remove(name@) == self@);
                }
                false
            },
        }
    }
}

} // verus!
