//! A puzzle in play: the facelets where they are now, where they were before
//! the last move, and the moves made so far composed into one permutation.

use crate::definition::{FaceColor, PolyhedronDefinition};
use crate::errors::PuzzleError;
use crate::export::{lines_view, table_lines, write_table};
use crate::facelets::{
    entries_of, lemma_turn_by_composite, lemma_turn_by_identity, positions_of, rotation, turnable,
    FaceletState,
};
use crate::one_line::image;
use crate::permutations::{Permutation, PermutationView};
use vstd::prelude::*;
use vstd::string::StringExecFns;

verus! {

/// What a [`Polyhedron`] holds, as mathematical values.
pub ghost struct PolyhedronView {
    /// The state in which the puzzle is solved.
    pub solved: Map<usize, usize>,
    /// The state in which the puzzle began.
    pub start: Map<usize, usize>,
    /// The state now.
    pub current: Map<usize, usize>,
    /// The state before the last move.
    pub before: Map<usize, usize>,
    /// The moves made so far, composed in the order in which they were made.
    pub applied: PermutationView,
}

/// How a move ends: with the puzzle it leaves, and the error if it failed.
pub ghost struct Outcome {
    /// The puzzle after the move.
    pub view: PolyhedronView,
    /// Why the move failed, if it did.
    pub error: Option<PuzzleError>,
}

impl PolyhedronView {
    /// The puzzle at its beginning.
    pub open spec fn restarted(self) -> PolyhedronView {
        PolyhedronView {
            current: self.start,
            before: self.start,
            applied: PermutationView::identity(),
            ..self
        }
    }

    /// The puzzle after a turn by `permutation`: what was the current state
    /// is the state before, each position holds the facelet that sat where
    /// the permutation sends the position, and the permutation is composed
    /// onto the moves made so far.
    pub open spec fn turned(self, permutation: PermutationView) -> PolyhedronView {
        PolyhedronView {
            before: self.current,
            current: rotation(self.current, permutation.one_line),
            applied: self.applied.compose(permutation),
            ..self
        }
    }

    /// The outcome of the move named `name` of the table `moves`. A name that
    /// the table does not hold, and a move that sends a position out of the
    /// puzzle, leave the puzzle as it is.
    pub open spec fn moved(
        self,
        moves: Map<Seq<char>, PermutationView>,
        name: Seq<char>,
    ) -> Outcome {
        if !moves.contains_key(name) {
            Outcome { view: self, error: Some(PuzzleError::UnknownMove) }
        } else if !turnable(self.current, moves[name].one_line) {
            Outcome { view: self, error: Some(PuzzleError::Definition) }
        } else {
            Outcome { view: self.turned(moves[name]), error: None }
        }
    }

    /// The outcome of the moves named `names`, made in their order up to the
    /// first that fails.
    pub open spec fn moved_all(
        self,
        moves: Map<Seq<char>, PermutationView>,
        names: Seq<Seq<char>>,
    ) -> Outcome
        decreases names.len(),
    {
        if names.len() == 0 {
            Outcome { view: self, error: None }
        } else {
            let earlier = self.moved_all(moves, names.drop_last());
            if earlier.error is Some {
                earlier
            } else {
                earlier.view.moved(moves, names.last())
            }
        }
    }

    /// All four states have the same positions, finitely many; the moves made
    /// so far are a well-formed permutation, and the turn by it makes the
    /// current state of the first.
    pub open spec fn wf(self) -> bool {
        &&& self.solved.dom().finite()
        &&& self.start.dom() == self.solved.dom()
        &&& self.current.dom() == self.solved.dom()
        &&& self.before.dom() == self.solved.dom()
        &&& self.applied.wf()
        &&& turnable(self.start, self.applied.one_line)
        &&& self.current == rotation(self.start, self.applied.one_line)
    }
}

/// The names of a list of moves.
pub open spec fn names_of(moves: Seq<&str>) -> Seq<Seq<char>> {
    Seq::new(moves.len(), |i: int| moves[i]@)
}

/// A puzzle of the variant `T` in play.
pub struct Polyhedron<T: PolyhedronDefinition> {
    polyhedron_definition: T,
    solved_state: FaceletState,
    start_state: FaceletState,
    current_state: FaceletState,
    before_state: FaceletState,
    applied_permutations: Permutation,
}

impl<T: PolyhedronDefinition> View for Polyhedron<T> {
    type V = PolyhedronView;

    closed spec fn view(&self) -> PolyhedronView {
        PolyhedronView {
            solved: self.solved_state@,
            start: self.start_state@,
            current: self.current_state@,
            before: self.before_state@,
            applied: self.applied_permutations@,
        }
    }
}

impl<T: PolyhedronDefinition> Polyhedron<T> {
    /// The variant of which this is a puzzle.
    pub closed spec fn definition(&self) -> T {
        self.polyhedron_definition
    }

    /// The parts of the puzzle are in order.
    pub closed spec fn parts_wf(&self) -> bool {
        &&& self.solved_state.wf()
        &&& self.start_state.wf()
        &&& self.current_state.wf()
        &&& self.before_state.wf()
        &&& self.applied_permutations.wf()
    }

    /// The puzzle is in order: its definition is, its solved state and its
    /// first state are those of the definition, all its states have the
    /// same positions, and every facelet of the current state lies on a face.
    pub open spec fn wf(&self) -> bool {
        &&& self.parts_wf()
        &&& self.definition().wf()
        &&& self@.wf()
        &&& self@.solved == self.definition().solved_map()
        &&& self@.start == self.definition().start_map()
        &&& forall|position: usize| #[trigger]
            self@.current.contains_key(position) ==> self.definition().has_face(position)
                && self.definition().has_face(self@.current[position])
    }

    /// A puzzle of the variant `poly_definition` at its beginning.
    pub fn create_polyhedron(poly_definition: T) -> (puzzle: Self)
        requires
            poly_definition.wf(),
        ensures
            puzzle.wf(),
            puzzle.definition() == poly_definition,
            puzzle@ == (PolyhedronView {
                solved: poly_definition.solved_map(),
                start: poly_definition.start_map(),
                current: poly_definition.start_map(),
                before: poly_definition.start_map(),
                applied: PermutationView::identity(),
            }),
    {
        let solved_state = poly_definition.solved_state();
        let start_state = poly_definition.start_state();
        let before_state = start_state.clone();
        let current_state = start_state.clone();
        proof {
            poly_definition.lemma_definition();
            solved_state.lemma_positions();
            lemma_turn_by_identity(start_state@);
        }
        Polyhedron {
            polyhedron_definition: poly_definition,
            solved_state,
            before_state,
            applied_permutations: Permutation::identity(),
            current_state,
            start_state,
        }
    }

    /// Makes the move named `perm`. Fails, and leaves the puzzle as it is,
    /// when the definition has no move of that name, or when the move sends
    /// a position of the puzzle to a place that is none.
    pub fn rotate(&mut self, perm: &str) -> (done: Result<(), PuzzleError>)
        requires
            old(self).wf(),
        ensures
            final(self).wf(),
            final(self).definition() == old(self).definition(),
            final(self)@ == old(self)@.moved(old(self).definition().move_table(), perm@).view,
            match done {
                Ok(()) => old(self)@.moved(old(self).definition().move_table(), perm@).error
                    is None,
                Err(error) => old(self)@.moved(old(self).definition().move_table(), perm@).error
                    == Some(error),
            },
    {
        let found = self.polyhedron_definition.get_permutation(String::from_str(perm));
        let permutation = match found {
            Ok(permutation) => permutation,
            Err(error) => {
                return Err(error);
            },
        };
        let turned = match self.current_state.permuted(permutation) {
            Some(turned) => turned,
            None => {
                return Err(PuzzleError::Definition);
            },
        };
        let applied = self.applied_permutations.compose(permutation);
        let before = self.current_state.clone();
        proof {
            let a = permutation@.one_line;
            assert(turned@.dom() =~= self.current_state@.dom());
            assert(turnable(self.start_state@, a)) by {
                assert forall|key: usize| #[trigger]
                    self.start_state@.contains_key(key) implies self.start_state@.contains_key(
                    image(a, key as int) as usize,
                ) by {
                    assert(self.current_state@.contains_key(key));
                }
            }
            lemma_turn_by_composite(
                self.start_state@,
                self.applied_permutations@.one_line,
                a,
            );
            assert forall|position: usize| #[trigger]
                turned@.contains_key(position) implies self.polyhedron_definition.has_face(
                position,
            ) && self.polyhedron_definition.has_face(turned@[position]) by {
                let source = image(a, position as int) as usize;
                assert(self.current_state@.contains_key(position));
                assert(self.current_state@.contains_key(source));
            }
        }
        self.applied_permutations = applied;
        self.before_state = before;
        self.current_state = turned;
        Ok(())
    }

    /// Makes the moves named in `perms`, in their order. At the first that
    /// fails the error is returned, and the puzzle is left as the moves
    /// before it made it.
    pub fn rotate_many(&mut self, perms: Vec<&str>) -> (done: Result<(), PuzzleError>)
        requires
            old(self).wf(),
        ensures
            final(self).wf(),
            final(self).definition() == old(self).definition(),
            final(self)@ == old(self)@.moved_all(
                old(self).definition().move_table(),
                names_of(perms@),
            ).view,
            match done {
                Ok(()) => old(self)@.moved_all(
                    old(self).definition().move_table(),
                    names_of(perms@),
                ).error is None,
                Err(error) => old(self)@.moved_all(
                    old(self).definition().move_table(),
                    names_of(perms@),
                ).error == Some(error),
            },
    {
        let ghost first = self@;
        let ghost moves = self.definition().move_table();
        let ghost names = names_of(perms@);
        let ghost definition = self.definition();
        let mut i: usize = 0;
        while i < perms.len()
            invariant
                i <= perms@.len(),
                names == names_of(perms@),
                self.wf(),
                first == old(self)@,
                definition == old(self).definition(),
                self.definition() == definition,
                moves == definition.move_table(),
                first.moved_all(moves, names.take(i as int)) == (Outcome {
                    view: self@,
                    error: None,
                }),
            decreases perms@.len() - i,
        {
            let ghost so_far = names.take(i as int);
            let ghost longer = names.take(i + 1);
            proof {
                assert(longer.drop_last() =~= so_far);
                assert(longer.last() == perms@[i as int]@);
            }
            let ghost earlier = self@;
            let step = self.rotate(perms[i]);
            proof {
                assert(first.moved_all(moves, so_far).view == earlier);
                assert(first.moved_all(moves, longer) == earlier.moved(moves, longer.last()));
            }
            match step {
                Ok(()) => {},
                Err(error) => {
                    proof {
                        lemma_moved_all_stops(first, moves, names, i + 1);
                    }
                    return Err(error);
                },
            }
            i += 1;
        }
        assert(names.take(i as int) =~= names);
        Ok(())
    }

    /// Puts the puzzle back to its beginning.
    pub fn reset(&mut self)
        requires
            old(self).wf(),
        ensures
            final(self).wf(),
            final(self).definition() == old(self).definition(),
            final(self)@ == old(self)@.restarted(),
    {
        proof {
            self.polyhedron_definition.lemma_definition();
            lemma_turn_by_identity(self.start_state@);
        }
        let before = self.start_state.clone();
        let current = self.start_state.clone();
        self.before_state = before;
        self.current_state = current;
        self.applied_permutations = Permutation::identity();
    }

    /// Whether the puzzle has `position`.
    pub fn has_position(&self, position: usize) -> (present: bool)
        requires
            self.wf(),
        ensures
            present == self@.current.contains_key(position),
    {
        self.current_state.contains(position)
    }

    /// The facelet at `position`, if the puzzle has that position.
    pub fn get_facelet(&self, position: usize) -> (facelet: Option<usize>)
        requires
            self.wf(),
        ensures
            facelet == (if self@.current.contains_key(position) {
                Some(self@.current[position])
            } else {
                None
            }),
    {
        self.current_state.get(position)
    }

    /// The name of the face to which the facelet at `position` belongs.
    pub fn get_face_name(&self, position: usize) -> (name: String)
        requires
            self.wf(),
            self@.current.contains_key(position),
        ensures
            name@ == self.definition().face_name_of(self@.current[position]),
    {
        let facelet = self.current_state.get(position).unwrap();
        self.polyhedron_definition.get_face_name(facelet)
    }

    /// The colour of the facelet at `position`: that of the face to which the
    /// facelet belongs.
    pub fn get_color(&self, position: usize) -> (color: FaceColor)
        requires
            self.wf(),
            self@.current.contains_key(position),
        ensures
            color == self.definition().color_of(
                self.definition().face_name_of(self@.current[position]),
            ),
    {
        let current_facelet = self.current_state.get(position).unwrap();
        let facename = self.polyhedron_definition.get_face_name(current_facelet);
        self.polyhedron_definition.get_color(facename)
    }

    /// Whether the last move put another facelet at `position`.
    pub fn has_changed(&self, position: usize) -> (changed: bool)
        requires
            self.wf(),
            self@.current.contains_key(position),
        ensures
            changed == (self@.current[position] != self@.before[position]),
    {
        let now = self.current_state.get(position).unwrap();
        let then = self.before_state.get(position).unwrap();
        now != then
    }

    /// Whether every position holds the facelet that it holds in the solved
    /// puzzle.
    pub fn is_solved(&self) -> (solved: bool)
        requires
            self.wf(),
        ensures
            solved == (self@.current == self@.solved),
    {
        self.current_state.equals(&self.solved_state)
    }

    /// Whether the last move changed the puzzle.
    pub fn has_moved(&self) -> (moved: bool)
        requires
            self.wf(),
        ensures
            moved == (self@.current != self@.before),
    {
        !self.current_state.equals(&self.before_state)
    }

    /// The current state as the text of a function that returns it: a first
    /// line, then one line for each position in ascending order, with a line
    /// that names the face before the first position of each face, then a last
    /// line.
    pub fn current_state_lines(&self) -> (lines: Vec<String>)
        requires
            self.wf(),
        ensures
            lines_view(lines@) == table_lines(
                "fn xxxxxxxxxxx() -> HashMap<usize, usize> { return HashMap::from(["@,
                entries_of(self@.current, positions_of(self@.current)),
                Seq::new(
                    positions_of(self@.current).len(),
                    |i: int| self.definition().face_name_of(positions_of(self@.current)[i]),
                ),
                "    ]); }"@,
            ),
    {
        let entries = self.current_state.entries();
        let positions = self.current_state.positions();
        let mut faces: Vec<String> = Vec::with_capacity(entries.len());
        let mut i: usize = 0;
        while i < positions.len()
            invariant
                self.wf(),
                i <= positions@.len(),
                positions@ == positions_of(self@.current),
                positions@.to_set() == self@.current.dom(),
                faces@.len() == i,
                forall|j: int|
                    0 <= j < i ==> (#[trigger] faces@[j])@ == self.definition().face_name_of(
                        positions@[j],
                    ),
            decreases positions@.len() - i,
        {
            let position = positions[i];
            proof {
                assert(positions@.to_set().contains(position));
                assert(self@.current.contains_key(position));
            }
            faces.push(self.polyhedron_definition.get_face_name(position));
            i += 1;
        }
        assert(lines_view(faces@) =~= Seq::new(
            positions_of(self@.current).len(),
            |i: int| self.definition().face_name_of(positions_of(self@.current)[i]),
        ));
        write_table(
            "fn xxxxxxxxxxx() -> HashMap<usize, usize> { return HashMap::from([",
            &entries,
            &faces,
            "    ]); }",
        )
    }

    /// The label of the moves made so far.
    pub fn applied_label(&self) -> (label: String)
        ensures
            label@ == self@.applied.label,
    {
        self.applied_permutations.print()
    }

    /// The moves made so far, composed into one permutation.
    pub fn applied_permutations(&self) -> (applied: &Permutation)
        requires
            self.wf(),
        ensures
            applied@ == self@.applied,
            applied.wf(),
    {
        &self.applied_permutations
    }

    /// The state now.
    pub fn current_state(&self) -> (state: &FaceletState)
        requires
            self.wf(),
        ensures
            state@ == self@.current,
            state.wf(),
    {
        &self.current_state
    }

    /// The state before the last move.
    pub fn before_state(&self) -> (state: &FaceletState)
        requires
            self.wf(),
        ensures
            state@ == self@.before,
            state.wf(),
    {
        &self.before_state
    }

    /// The state in which the puzzle is solved.
    pub fn solved_state(&self) -> (state: &FaceletState)
        requires
            self.wf(),
        ensures
            state@ == self@.solved,
            state.wf(),
    {
        &self.solved_state
    }

    /// The variant of which this is a puzzle.
    pub fn polyhedron_definition(&self) -> (definition: &T)
        ensures
            *definition == self.definition(),
    {
        &self.polyhedron_definition
    }
}

/// Once a move has failed, the moves after it change nothing.
pub proof fn lemma_moved_all_stops(
    first: PolyhedronView,
    moves: Map<Seq<char>, PermutationView>,
    names: Seq<Seq<char>>,
    failed: int,
)
    requires
        0 <= failed <= names.len(),
        first.moved_all(moves, names.take(failed)).error is Some,
    ensures
        first.moved_all(moves, names) == first.moved_all(moves, names.take(failed)),
    decreases names.len() - failed,
{
    if failed < names.len() {
        let longer = names.take(failed + 1);
        assert(longer.drop_last() =~= names.take(failed));
        lemma_moved_all_stops(first, moves, names, failed + 1);
    } else {
        assert(names.take(failed) =~= names);
    }
}

} // verus!
