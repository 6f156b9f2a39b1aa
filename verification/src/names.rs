//! A set of names, kept as a list without repetition.

use crate::text::str_eq;
use vstd::prelude::*;

verus! {

/// A finite set of strings. Names keep the order in which they were first
/// inserted.
#[derive(Debug)]
pub struct NameSet {
    names: Vec<String>,
}

impl NameSet {
    /// The names in insertion order.
    pub closed spec fn seq(&self) -> Seq<Seq<char>> {
        Seq::new(self.names@.len(), |i: int| self.names@[i]@)
    }

    #[verifier::type_invariant]
    spec fn inv(&self) -> bool {
        self.seq().no_duplicates()
    }

    /// The empty set.
    pub fn new() -> (r: NameSet)
        ensures
            r@ == Set::<Seq<char>>::empty(),
            r.seq() == Seq::<Seq<char>>::empty(),
    {
        let r = NameSet { names: Vec::new() };
        r
    }

    /// The number of names.
    pub fn len(&self) -> (r: usize)
        ensures
            r == self@.len(),
            r == self.seq().len(),
            self@.finite(),
            self.seq().no_duplicates(),
            forall|k: Seq<char>| #[trigger] self@.contains(k) <==> self.seq().contains(k),
    {
        proof {
            use_type_invariant(self);
            self.seq().unique_seq_to_set();
            vstd::seq_lib::seq_to_set_is_finite(self.seq());
        }
        self.names.len()
    }

    /// Whether `name` is in the set.
    pub fn contains(&self, name: &str) -> (r: bool)
        ensures
            r == self@.contains(name@),
    {
        let mut i: usize = 0;
        while i < self.names.len()
            invariant
                i <= self.names@.len(),
                forall|j: int| 0 <= j < i ==> self.seq()[j] != name@,
            decreases self.names@.len() - i,
        {
            if str_eq(self.names[i].as_str(), name) {
                assert(self.seq()[i as int] == name@);
                return true;
            }
            i += 1;
        }
        false
    }

    /// Adds `name`; returns whether it was new.
    pub fn insert(&mut self, name: String) -> (fresh: bool)
        ensures
            final(self)@ == old(self)@.insert(name@),
            fresh == !old(self)@.contains(name@),
            final(self).seq() == if fresh {
                old(self).seq().push(name@)
            } else {
                old(self).seq()
            },
    {
        proof {
            use_type_invariant(&*self);
        }
        if self.contains(name.as_str()) {
            false
        } else {
            let ghost before = self.seq();
            let mut names: Vec<String> = Vec::new();
            core::mem::swap(&mut self.names, &mut names);
            names.push(name);
            proof {
                let next = NameSet { names };
                assert(next.seq() =~= before.push(name@));
                assert forall|a: int, b: int|
                    0 <= a < next.seq().len() && 0 <= b < next.seq().len() && a
                        != b implies next.seq()[a] != next.seq()[b] by {}
                assert(next@ =~= before.to_set().insert(name@)) by {
                    assert forall|k: Seq<char>|
                        next.seq().contains(k) <==> before.contains(k) || k == name@ by {
                        if before.contains(k) {
                            let j = choose|j: int| 0 <= j < before.len() && before[j] == k;
                            assert(next.seq()[j] == k);
                        }
                        assert(next.seq()[before.len() as int] == name@);
                    }
                }
            }
            self.names = names;
            true
        }
    }

    /// The name at position `i` of the insertion order, if there is one.
    pub fn name(&self, i: usize) -> (r: Option<&String>)
        ensures
            match r {
                Some(n) => i < self.seq().len() && n@ == self.seq()[i as int] && self@.contains(n@),
                None => i >= self.seq().len(),
            },
    {
        if i < self.names.len() {
            Some(&self.names[i])
        } else {
            None
        }
    }
}

impl View for NameSet {
    type V = Set<Seq<char>>;

    closed spec fn view(&self) -> Set<Seq<char>> {
        self.seq().to_set()
    }
}

} // verus!
