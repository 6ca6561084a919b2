//! The state of a puzzle's surface: which facelet sits at which position.

use crate::one_line::{
    compose_spec, image, is_bijection, lemma_compose, lemma_degree_of, lemma_image_bijective,
};
use crate::permutations::Permutation;
use vstd::prelude::*;

verus! {

/// A map from position to facelet label, kept in the order of the positions.
#[derive(Debug)]
pub struct FaceletState {
    positions: Vec<usize>,
    labels: Vec<usize>,
}

/// The numbers stand in strictly ascending order.
pub open spec fn ascending(numbers: Seq<usize>) -> bool {
    forall|i: int, j: int| 0 <= i < j < numbers.len() ==> numbers[i] < numbers[j]
}

/// Every position of `state` is sent by `a` to a position of `state`.
pub open spec fn turnable(state: Map<usize, usize>, a: Seq<usize>) -> bool {
    forall|key: usize| #[trigger]
        state.contains_key(key) ==> state.contains_key(image(a, key as int) as usize)
}

/// The state after a turn by the permutation written as `a`: each position
/// gets the facelet that sat where `a` sends the position.
pub open spec fn rotation(state: Map<usize, usize>, a: Seq<usize>) -> Map<usize, usize> {
    Map::new(
        |key: usize| state.contains_key(key),
        |key: usize| state[image(a, key as int) as usize],
    )
}

/// The map that the pairs write, a later pair replacing an earlier one of the
/// same position.
pub open spec fn map_of_pairs(pairs: Seq<(usize, usize)>) -> Map<usize, usize>
    decreases pairs.len(),
{
    if pairs.len() == 0 {
        Map::empty()
    } else {
        map_of_pairs(pairs.drop_last()).insert(pairs.last().0, pairs.last().1)
    }
}

/// `position` is one of the first `slots` places of face `face`: the tens of a
/// position number its face, the units its place on the face, from 1 on.
pub open spec fn on_face(position: usize, face: usize, slots: usize) -> bool {
    position / 10 == face && 1 <= position % 10 <= slots
}

/// The positions of `state` in ascending order.
pub open spec fn positions_of(state: Map<usize, usize>) -> Seq<usize> {
    choose|positions: Seq<usize>| ascending(positions) && positions.to_set() == state.dom()
}

/// The pairs of position and facelet of `state`, for the given positions in
/// their order.
pub open spec fn entries_of(
    state: Map<usize, usize>,
    positions: Seq<usize>,
) -> Seq<(usize, usize)> {
    Seq::new(positions.len(), |i: int| (positions[i], state[positions[i]]))
}

/// Two ascending sequences with the same entries agree on their first `i`.
proof fn lemma_ascending_agree(s: Seq<usize>, t: Seq<usize>, i: nat)
    requires
        ascending(s),
        ascending(t),
        s.to_set() == t.to_set(),
        i <= s.len(),
        i <= t.len(),
    ensures
        forall|j: int| 0 <= j < i ==> s[j] == t[j],
    decreases i,
{
    if i > 0 {
        let k = (i - 1) as int;
        lemma_ascending_agree(s, t, k as nat);
        assert(s.to_set().contains(s[k]));
        assert(t.to_set().contains(t[k]));
        assert(t.contains(s[k]));
        assert(s.contains(t[k]));
        let in_t = choose|j: int| 0 <= j < t.len() && t[j] == s[k];
        let in_s = choose|j: int| 0 <= j < s.len() && s[j] == t[k];
        if in_t < k {
            assert(s[in_t] == t[in_t]);
        }
        if in_s < k {
            assert(s[in_s] == t[in_s]);
        }
    }
}

/// Two ascending sequences with the same entries are the same sequence.
pub proof fn lemma_ascending_unique(s: Seq<usize>, t: Seq<usize>)
    requires
        ascending(s),
        ascending(t),
        s.to_set() == t.to_set(),
    ensures
        s == t,
{
    let n = s.len();
    let m = t.len();
    if n < m {
        lemma_ascending_agree(s, t, n);
        assert(t.to_set().contains(t[n as int]));
        assert(s.contains(t[n as int]));
        let j = choose|j: int| 0 <= j < s.len() && s[j] == t[n as int];
        assert(t[j] == s[j]);
        assert(false);
    }
    if m < n {
        lemma_ascending_agree(s, t, m);
        assert(s.to_set().contains(s[m as int]));
        assert(t.contains(s[m as int]));
        let j = choose|j: int| 0 <= j < t.len() && t[j] == s[m as int];
        assert(t[j] == s[j]);
        assert(false);
    }
    lemma_ascending_agree(s, t, n);
    assert(s =~= t);
}

/// The turn by a permutation that moves nothing leaves every facelet where it
/// is.
pub proof fn lemma_turn_by_identity(state: Map<usize, usize>)
    ensures
        turnable(state, Seq::<usize>::empty()),
        rotation(state, Seq::<usize>::empty()) == state,
{
    let still = Seq::<usize>::empty();
    lemma_degree_of(still);
    assert forall|key: usize| #[trigger] state.contains_key(key) implies image(still, key as int)
        == key by {}
    assert(rotation(state, still) =~= state);
}

/// Two turns, one after the other, are the turn by the composite of the two
/// permutations, the first turn written first.
pub proof fn lemma_turn_by_composite(state: Map<usize, usize>, a: Seq<usize>, b: Seq<usize>)
    requires
        is_bijection(a),
        is_bijection(b),
        turnable(state, a),
        turnable(state, b),
    ensures
        turnable(state, compose_spec(a, b)),
        rotation(rotation(state, a), b) == rotation(state, compose_spec(a, b)),
{
    let both = compose_spec(a, b);
    lemma_compose(a, b);
    lemma_image_bijective(a);
    lemma_image_bijective(b);
    lemma_degree_of(b);
    assert forall|position: usize| #[trigger] state.contains_key(position) implies image(
        both,
        position as int,
    ) as usize == image(a, (image(b, position as int) as usize) as int) as usize
        && state.contains_key(image(both, position as int) as usize) by {
        let middle = image(b, position as int) as usize;
        assert(image(both, position as int) == image(a, image(b, position as int)));
        assert(state.contains_key(middle));
        assert(state.contains_key(image(a, middle as int) as usize));
    }
    assert(rotation(rotation(state, a), b) =~= rotation(state, both));
}

impl View for FaceletState {
    type V = Map<usize, usize>;

    closed spec fn view(&self) -> Map<usize, usize> {
        Map::new(
            |position: usize| self.positions@.contains(position),
            |position: usize| self.labels@[self.positions@.index_of(position)],
        )
    }
}

impl FaceletState {
    /// The positions stand in ascending order, each with its facelet.
    pub closed spec fn wf(&self) -> bool {
        &&& self.positions@.len() == self.labels@.len()
        &&& ascending(self.positions@)
    }

    /// The map is finite, and its positions in ascending order are as many as
    /// its keys.
    pub proof fn lemma_positions(&self)
        requires
            self.wf(),
        ensures
            ascending(positions_of(self@)),
            positions_of(self@).to_set() == self@.dom(),
            self@.dom().finite(),
            positions_of(self@).len() == self@.dom().len(),
    {
        self.lemma_stored_positions();
    }

    proof fn lemma_stored_positions(&self)
        requires
            self.wf(),
        ensures
            self.positions@ == positions_of(self@),
            ascending(self.positions@),
            self.positions@.to_set() == self@.dom(),
            self@.dom().finite(),
            self.positions@.len() == self@.dom().len(),
    {
        assert(self.positions@.to_set() =~= self@.dom());
        lemma_ascending_unique(self.positions@, positions_of(self@));
        vstd::seq_lib::seq_to_set_is_finite(self.positions@);
        assert(self.positions@.no_duplicates());
        self.positions@.unique_seq_to_set();
    }

    proof fn lemma_entry(&self, i: int)
        requires
            self.wf(),
            0 <= i < self.positions@.len(),
        ensures
            self@.contains_key(self.positions@[i]),
            self@[self.positions@[i]] == self.labels@[i],
    {
        let position = self.positions@[i];
        assert(self.positions@.contains(position));
        let j = self.positions@.index_of(position);
        assert(0 <= j < self.positions@.len() && self.positions@[j] == position);
        if j < i {
            assert(self.positions@[j] < self.positions@[i]);
        } else if i < j {
            assert(self.positions@[i] < self.positions@[j]);
        }
    }

    /// The state without any position.
    pub fn new() -> (state: Self)
        ensures
            state.wf(),
            state@ == Map::<usize, usize>::empty(),
    {
        let state = FaceletState { positions: Vec::new(), labels: Vec::new() };
        assert(state@ =~= Map::<usize, usize>::empty());
        state
    }

    /// The number of positions.
    pub fn len(&self) -> (count: usize)
        requires
            self.wf(),
        ensures
            count == self@.dom().len(),
            count == positions_of(self@).len(),
    {
        proof {
            self.lemma_stored_positions();
        }
        self.positions.len()
    }

    /// Index of the first position that is not below `position`.
    fn lower_bound(&self, position: usize) -> (index: usize)
        requires
            self.wf(),
        ensures
            index <= self.positions@.len(),
            forall|j: int| 0 <= j < index ==> self.positions@[j] < position,
            forall|j: int| index <= j < self.positions@.len() ==> self.positions@[j] >= position,
    {
        let mut low: usize = 0;
        let mut high: usize = self.positions.len();
        while low < high
            invariant
                self.wf(),
                low <= high <= self.positions@.len(),
                forall|j: int| 0 <= j < low ==> self.positions@[j] < position,
                forall|j: int| high <= j < self.positions@.len() ==> self.positions@[j] >= position,
            decreases high - low,
        {
            let middle = low + (high - low) / 2;
            if self.positions[middle] < position {
                low = middle + 1;
            } else {
                high = middle;
            }
        }
        low
    }

    /// The facelet at `position`, if the state has that position.
    pub fn get(&self, position: usize) -> (facelet: Option<usize>)
        requires
            self.wf(),
        ensures
            facelet == (if self@.contains_key(position) {
                Some(self@[position])
            } else {
                None
            }),
    {
        let index = self.lower_bound(position);
        if index < self.positions.len() && self.positions[index] == position {
            proof {
                self.lemma_entry(index as int);
            }
            Some(self.labels[index])
        } else {
            proof {
                if self.positions@.contains(position) {
                    let j = self.positions@.index_of(position);
                    assert(0 <= j < self.positions@.len() && self.positions@[j] == position);
                }
            }
            None
        }
    }

    /// Whether the state has `position`.
    pub fn contains(&self, position: usize) -> (present: bool)
        requires
            self.wf(),
        ensures
            present == self@.contains_key(position),
    {
        self.get(position).is_some()
    }

    /// Puts `label` at `position`, whether or not the state had that position.
    pub fn insert(&mut self, position: usize, label: usize)
        requires
            old(self).wf(),
        ensures
            final(self).wf(),
            final(self)@ == old(self)@.insert(position, label),
    {
        let index = self.lower_bound(position);
        let ghost before = *self;
        if index < self.positions.len() && self.positions[index] == position {
            self.labels.set(index, label);
            proof {
                assert forall|p: usize| #[trigger] self@.contains_key(p) implies self@[p]
                    == before@.insert(position, label)[p] by {
                    let j = self.positions@.index_of(p);
                    assert(0 <= j < self.positions@.len() && self.positions@[j] == p);
                    before.lemma_entry(j);
                    self.lemma_entry(j);
                }
                assert(before.positions@.contains(position));
                assert(self@ =~= before@.insert(position, label));
            }
        } else {
            self.positions.insert(index, position);
            self.labels.insert(index, label);
            proof {
                assert(ascending(self.positions@)) by {
                    assert forall|i: int, j: int| 0 <= i < j < self.positions@.len() implies self.positions@[i]
                        < self.positions@[j] by {
                        let bi = if i < index { i } else { i - 1 };
                        let bj = if j < index { j } else { j - 1 };
                        if i != index && j != index {
                            assert(before.positions@[bi] < before.positions@[bj]);
                        } else if i == index {
                            assert(before.positions@[bj] >= position);
                        } else {
                            assert(before.positions@[bi] < position);
                        }
                    }
                }
                assert forall|p: usize| #[trigger]
                    self@.contains_key(p) <==> before@.insert(position, label).contains_key(p) by {
                    if self.positions@.contains(p) {
                        let j = choose|j: int| 0 <= j < self.positions@.len() && self.positions@[j] == p;
                        if j < index {
                            assert(before.positions@[j] == p);
                        } else if j > index {
                            assert(before.positions@[j - 1] == p);
                        }
                    }
                    if before.positions@.contains(p) {
                        let j = choose|j: int| 0 <= j < before.positions@.len() && before.positions@[j] == p;
                        if j < index {
                            assert(self.positions@[j] == p);
                        } else {
                            assert(self.positions@[j + 1] == p);
                        }
                    }
                    if p == position {
                        assert(self.positions@[index as int] == p);
                    }
                }
                assert forall|p: usize| #[trigger] self@.contains_key(p) implies self@[p]
                    == before@.insert(position, label)[p] by {
                    let j = self.positions@.index_of(p);
                    assert(0 <= j < self.positions@.len() && self.positions@[j] == p);
                    self.lemma_entry(j);
                    if j < index {
                        before.lemma_entry(j);
                    } else if j > index {
                        before.lemma_entry(j - 1);
                    }
                }
                assert(self@ =~= before@.insert(position, label));
            }
        }
    }

    /// The state that the pairs of position and facelet write, a later pair
    /// replacing an earlier one of the same position.
    pub fn from_pairs(pairs: Vec<(usize, usize)>) -> (state: Self)
        ensures
            state.wf(),
            state@ == map_of_pairs(pairs@),
    {
        let mut state = FaceletState::new();
        let mut i: usize = 0;
        while i < pairs.len()
            invariant
                i <= pairs@.len(),
                state.wf(),
                state@ == map_of_pairs(pairs@.take(i as int)),
            decreases pairs@.len() - i,
        {
            let pair = pairs[i];
            proof {
                let longer = pairs@.take(i + 1);
                assert(longer.drop_last() =~= pairs@.take(i as int));
                assert(longer.last() == pair);
            }
            state.insert(pair.0, pair.1);
            i += 1;
        }
        assert(pairs@.take(i as int) =~= pairs@);
        state
    }

    /// Adds the first `slots` places of face `face`, each with the facelet of
    /// its own number.
    pub fn add_face(&mut self, face: usize, slots: usize)
        requires
            old(self).wf(),
            slots <= 9,
            face * 10 + 9 <= usize::MAX,
        ensures
            final(self).wf(),
            forall|position: usize| #[trigger]
                final(self)@.contains_key(position) <==> old(self)@.contains_key(position)
                    || on_face(position, face, slots),
            forall|position: usize|
                on_face(position, face, slots) ==> #[trigger] final(self)@[position] == position,
            forall|position: usize|
                old(self)@.contains_key(position) && !on_face(position, face, slots)
                    ==> #[trigger] final(self)@[position] == old(self)@[position],
    {
        let ghost before = self@;
        let mut slot: usize = 1;
        while slot <= slots
            invariant
                self.wf(),
                1 <= slot <= slots + 1,
                slots <= 9,
                face * 10 + 9 <= usize::MAX,
                forall|position: usize| #[trigger]
                    self@.contains_key(position) <==> before.contains_key(position) || on_face(
                        position,
                        face,
                        (slot - 1) as usize,
                    ),
                forall|position: usize|
                    on_face(position, face, (slot - 1) as usize) ==> #[trigger] self@[position]
                        == position,
                forall|position: usize|
                    before.contains_key(position) && !on_face(position, face, (slot - 1) as usize)
                        ==> #[trigger] self@[position] == before[position],
            decreases slots + 1 - slot,
        {
            let position = face * 10 + slot;
            assert(position / 10 == face && position % 10 == slot);
            self.insert(position, position);
            slot += 1;
        }
    }

    /// The positions, in ascending order.
    pub fn positions(&self) -> (positions: Vec<usize>)
        requires
            self.wf(),
        ensures
            positions@ == positions_of(self@),
            ascending(positions@),
            positions@.to_set() == self@.dom(),
    {
        proof {
            self.lemma_stored_positions();
        }
        let positions = self.positions.clone();
        assert(positions@ =~= self.positions@);
        positions
    }

    /// The pairs of position and facelet, in the order of the positions.
    pub fn entries(&self) -> (entries: Vec<(usize, usize)>)
        requires
            self.wf(),
        ensures
            entries@ == entries_of(self@, positions_of(self@)),
    {
        proof {
            self.lemma_stored_positions();
        }
        let mut entries: Vec<(usize, usize)> = Vec::with_capacity(self.positions.len());
        let mut i: usize = 0;
        while i < self.positions.len()
            invariant
                self.wf(),
                i <= self.positions@.len(),
                entries@.len() == i,
                forall|j: int|
                    0 <= j < i ==> entries@[j] == (self.positions@[j], self@[self.positions@[j]]),
            decreases self.positions@.len() - i,
        {
            proof {
                self.lemma_entry(i as int);
            }
            entries.push((self.positions[i], self.labels[i]));
            i += 1;
        }
        assert(entries@ =~= entries_of(self@, positions_of(self@)));
        entries
    }

    /// Whether the two states have the same positions with the same facelets.
    pub fn equals(&self, other: &FaceletState) -> (same: bool)
        requires
            self.wf(),
            other.wf(),
        ensures
            same == (self@ == other@),
    {
        proof {
            self.lemma_stored_positions();
            other.lemma_stored_positions();
        }
        if self.positions.len() != other.positions.len() {
            return false;
        }
        let mut i: usize = 0;
        while i < self.positions.len()
            invariant
                self.wf(),
                other.wf(),
                self.positions@.len() == other.positions@.len(),
                i <= self.positions@.len(),
                forall|j: int|
                    0 <= j < i ==> self.positions@[j] == other.positions@[j] && self.labels@[j]
                        == other.labels@[j],
            decreases self.positions@.len() - i,
        {
            if self.positions[i] != other.positions[i] || self.labels[i] != other.labels[i] {
                proof {
                    if self@ == other@ {
                        self.lemma_stored_positions();
                        other.lemma_stored_positions();
                        lemma_ascending_unique(self.positions@, other.positions@);
                        self.lemma_entry(i as int);
                        other.lemma_entry(i as int);
                    }
                }
                return false;
            }
            i += 1;
        }
        proof {
            assert(self.positions@ =~= other.positions@);
            assert(self.labels@ =~= other.labels@);
            assert(self@ =~= other@);
        }
        true
    }

    /// The state after a turn by `permutation`: each position gets the facelet
    /// that sat where the permutation sends the position. `None` when the
    /// permutation sends a position to a place that the state does not have.
    pub fn permuted(&self, permutation: &Permutation) -> (turned: Option<FaceletState>)
        requires
            self.wf(),
            permutation.wf(),
        ensures
            match turned {
                Some(state) => {
                    &&& turnable(self@, permutation@.one_line)
                    &&& state.wf()
                    &&& state@ == rotation(self@, permutation@.one_line)
                },
                None => !turnable(self@, permutation@.one_line),
            },
    {
        let ghost a = permutation@.one_line;
        let mut labels: Vec<usize> = Vec::with_capacity(self.positions.len());
        let mut i: usize = 0;
        while i < self.positions.len()
            invariant
                self.wf(),
                permutation.wf(),
                a == permutation@.one_line,
                i <= self.positions@.len(),
                labels@.len() == i,
                forall|j: int|
                    0 <= j < i ==> self@.contains_key(
                        image(a, (#[trigger] self.positions@[j]) as int) as usize,
                    ),
                forall|j: int|
                    0 <= j < i ==> #[trigger] labels@[j] == self@[image(
                        a,
                        self.positions@[j] as int,
                    ) as usize],
            decreases self.positions@.len() - i,
        {
            let key = self.positions[i];
            let source = permutation.apply(key);
            assert(image(a, key as int) as usize == source);
            let ghost collected = labels@;
            let found = self.get(source);
            if found.is_none() {
                proof {
                    self.lemma_entry(i as int);
                }
                return None;
            }
            labels.push(found.unwrap());
            i += 1;
            assert forall|j: int| 0 <= j < i implies #[trigger] labels@[j] == self@[image(
                a,
                self.positions@[j] as int,
            ) as usize] by {
                if j < i - 1 {
                    assert(labels@[j] == collected[j]);
                }
            }
        }
        let positions = self.positions.clone();
        assert(positions@ =~= self.positions@);
        let state = FaceletState { positions, labels };
        proof {
            assert forall|key: usize| #[trigger] self@.contains_key(key) implies self@.contains_key(
                image(a, key as int) as usize,
            ) && state@[key] == self@[image(a, key as int) as usize] by {
                let j = self.positions@.index_of(key);
                assert(0 <= j < self.positions@.len() && self.positions@[j] == key);
                assert(labels@[j] == self@[image(a, self.positions@[j] as int) as usize]);
                state.lemma_entry(j);
            }
            assert(state@ =~= rotation(self@, a));
        }
        Some(state)
    }
}

impl Clone for FaceletState {
    /// A copy of the state.
    fn clone(&self) -> (state: Self)
        ensures
            self.wf() ==> state.wf() && state@ == self@,
    {
        let positions = self.positions.clone();
        let labels = self.labels.clone();
        assert(positions@ =~= self.positions@);
        assert(labels@ =~= self.labels@);
        let state = FaceletState { positions, labels };
        assert(state@ =~= self@);
        state
    }
}

} // verus!
