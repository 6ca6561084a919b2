//! The named moves of a puzzle.

use crate::permutations::{Permutation, PermutationView};
use vstd::prelude::*;

verus! {

/// A table from move name to permutation, each name once.
#[derive(Debug)]
pub struct MoveTable {
    names: Vec<String>,
    permutations: Vec<Permutation>,
}

impl View for MoveTable {
    type V = Map<Seq<char>, PermutationView>;

    closed spec fn view(&self) -> Map<Seq<char>, PermutationView> {
        Map::new(
            |name: Seq<char>| self.labels().contains(name),
            |name: Seq<char>| self.permutations@[self.labels().index_of(name)]@,
        )
    }
}

impl MoveTable {
    /// The names, in the order in which they were registered.
    pub closed spec fn labels(&self) -> Seq<Seq<char>> {
        Seq::new(self.names@.len(), |i: int| self.names@[i]@)
    }

    /// Each name stands once, beside a permutation that is well formed.
    pub closed spec fn wf(&self) -> bool {
        &&& self.names@.len() == self.permutations@.len()
        &&& self.labels().no_duplicates()
        &&& forall|i: int| 0 <= i < self.permutations@.len() ==> (#[trigger] self.permutations@[i]).wf()
    }

    /// Every move of the table is a well-formed permutation.
    pub proof fn lemma_moves_wf(&self)
        requires
            self.wf(),
        ensures
            forall|name: Seq<char>| #[trigger] self@.contains_key(name) ==> self@[name].wf(),
    {
        assert forall|name: Seq<char>| #[trigger] self@.contains_key(name) implies self@[name].wf() by {
            let i = self.labels().index_of(name);
            assert(0 <= i < self.labels().len() && self.labels()[i] == name);
            assert(self.permutations@[i].wf());
        }
    }

    proof fn lemma_entry(&self, i: int)
        requires
            self.wf(),
            0 <= i < self.names@.len(),
        ensures
            self@.contains_key(self.names@[i]@),
            self@[self.names@[i]@] == self.permutations@[i]@,
    {
        let name = self.names@[i]@;
        assert(self.labels()[i] == name);
        assert(self.labels().contains(name));
        let j = self.labels().index_of(name);
        assert(0 <= j < self.labels().len() && self.labels()[j] == name);
    }

    /// The table without any move.
    pub fn new() -> (table: Self)
        ensures
            table.wf(),
            table@ == Map::<Seq<char>, PermutationView>::empty(),
    {
        let table = MoveTable { names: Vec::new(), permutations: Vec::new() };
        assert(table.labels() =~= Seq::empty());
        assert(table@ =~= Map::<Seq<char>, PermutationView>::empty());
        table
    }

    /// Where `name` stands in the table, if it does.
    fn find(&self, name: &String) -> (index: Option<usize>)
        requires
            self.wf(),
        ensures
            match index {
                Some(i) => i < self.names@.len() && self.names@[i as int]@ == name@,
                None => !self.labels().contains(name@),
            },
    {
        let mut i: usize = 0;
        while i < self.names.len()
            invariant
                i <= self.names@.len(),
                forall|j: int| 0 <= j < i ==> (#[trigger] self.names@[j])@ != name@,
            decreases self.names@.len() - i,
        {
            if self.names[i] == *name {
                return Some(i);
            }
            i += 1;
        }
        proof {
            if self.labels().contains(name@) {
                let j = choose|j: int| 0 <= j < self.labels().len() && self.labels()[j] == name@;
                assert(self.names@[j]@ != name@);
            }
        }
        None
    }

    /// Registers `permutation` under `name`, in place of what the name stood
    /// for before, if anything.
    pub fn insert(&mut self, name: String, permutation: Permutation)
        requires
            old(self).wf(),
            permutation.wf(),
        ensures
            final(self).wf(),
            final(self)@ == old(self)@.insert(name@, permutation@),
    {
        let ghost before = *self;
        let ghost label = name@;
        let ghost added = permutation@;
        match self.find(&name) {
            Some(index) => {
                self.permutations.set(index, permutation);
                proof {
                    assert(self.labels() =~= before.labels());
                    before.lemma_entry(index as int);
                    assert forall|i: int| 0 <= i < self.permutations@.len() implies (
                    #[trigger] self.permutations@[i]).wf() by {
                        if i != index {
                            assert(before.permutations@[i].wf());
                        }
                    }
                    assert(self.wf());
                    assert forall|other: Seq<char>| #[trigger]
                        self@.contains_key(other) implies self@[other] == before@.insert(
                        label,
                        added,
                    )[other] by {
                        let j = self.labels().index_of(other);
                        assert(0 <= j < self.labels().len() && self.labels()[j] == other);
                        before.lemma_entry(j);
                        self.lemma_entry(j);
                        if other == label {
                            assert(self.labels()[index as int] == label);
                            assert(j == index);
                        } else {
                            assert(j != index);
                        }
                    }
                    assert(self@ =~= before@.insert(label, added));
                }
            },
            None => {
                self.names.push(name);
                self.permutations.push(permutation);
                proof {
                    assert(self.labels() =~= before.labels().push(label));
                    assert(self.labels().no_duplicates()) by {
                        assert forall|i: int, j: int|
                            0 <= i < self.labels().len() && 0 <= j < self.labels().len() && i
                                != j implies self.labels()[i] != self.labels()[j] by {
                            if i < before.labels().len() {
                                assert(before.labels().contains(before.labels()[i]));
                            }
                            if j < before.labels().len() {
                                assert(before.labels().contains(before.labels()[j]));
                            }
                        }
                    }
                    assert forall|i: int| 0 <= i < self.permutations@.len() implies (
                    #[trigger] self.permutations@[i]).wf() by {
                        if i < before.permutations@.len() {
                            assert(before.permutations@[i].wf());
                        }
                    }
                    assert forall|other: Seq<char>| #[trigger]
                        self@.contains_key(other) <==> before@.insert(label, added).contains_key(
                            other,
                        ) by {
                        if self.labels().contains(other) {
                            let j = choose|j: int|
                                0 <= j < self.labels().len() && self.labels()[j] == other;
                            if j < before.labels().len() {
                                assert(before.labels()[j] == other);
                            }
                        }
                        if before.labels().contains(other) {
                            let j = choose|j: int|
                                0 <= j < before.labels().len() && before.labels()[j] == other;
                            assert(self.labels()[j] == other);
                        }
                        if other == label {
                            assert(self.labels()[self.labels().len() - 1] == other);
                        }
                    }
                    assert forall|other: Seq<char>| #[trigger]
                        self@.contains_key(other) implies self@[other] == before@.insert(
                        label,
                        added,
                    )[other] by {
                        let j = self.labels().index_of(other);
                        assert(0 <= j < self.labels().len() && self.labels()[j] == other);
                        self.lemma_entry(j);
                        if j < before.labels().len() {
                            before.lemma_entry(j);
                        }
                    }
                    assert(self@ =~= before@.insert(label, added));
                }
            },
        }
    }

    /// The move registered under `name`, if there is one.
    pub fn get(&self, name: &String) -> (found: Option<&Permutation>)
        requires
            self.wf(),
        ensures
            match found {
                Some(permutation) => {
                    &&& self@.contains_key(name@)
                    &&& permutation@ == self@[name@]
                    &&& permutation.wf()
                },
                None => !self@.contains_key(name@),
            },
    {
        match self.find(name) {
            Some(index) => {
                proof {
                    self.lemma_entry(index as int);
                }
                Some(&self.permutations[index])
            },
            None => None,
        }
    }

    /// The number of moves.
    pub fn len(&self) -> (count: usize)
        requires
            self.wf(),
        ensures
            count == self@.dom().len(),
    {
        proof {
            assert(self.labels().to_set() =~= self@.dom());
            self.labels().unique_seq_to_set();
        }
        self.names.len()
    }
}

} // verus!
