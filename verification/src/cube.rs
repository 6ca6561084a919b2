//! The cube of two by two by two as a puzzle of its own, turned by
//! permutations that the caller brings.

use crate::definition::FaceColor;
use crate::definition_cube_2x2::{cube_2x2_solved, solved_state};
use crate::errors::PuzzleError;
use crate::export::{lines_view, table_lines, write_table};
use crate::facelets::{
    entries_of, lemma_turn_by_composite, lemma_turn_by_identity, positions_of, turnable,
    FaceletState,
};
use crate::one_line::image;
use crate::permutations::{Permutation, PermutationView};
use crate::puzzle::PolyhedronView;
use vstd::prelude::*;
use vstd::string::StringExecFns;

verus! {

/// A cube in play.
pub struct Cube {
    solved_state: FaceletState,
    start_state: FaceletState,
    current_state: FaceletState,
    before_state: FaceletState,
    applied_permutations: Permutation,
}

/// The name of the face of `position`: `F`, `U`, `R`, `D`, `L` or `B`, by the
/// tens of the position.
pub open spec fn cube_face_name_of(position: usize) -> Seq<char> {
    if position / 10 == 0 {
        "F"@
    } else if position / 10 == 1 {
        "U"@
    } else if position / 10 == 2 {
        "R"@
    } else if position / 10 == 3 {
        "D"@
    } else if position / 10 == 4 {
        "L"@
    } else {
        "B"@
    }
}

/// The colour of the face of `position`, by the tens of the position.
pub open spec fn cube_color_of(position: usize) -> FaceColor {
    if position / 10 == 0 {
        FaceColor::Red
    } else if position / 10 == 1 {
        FaceColor::Yellow
    } else if position / 10 == 2 {
        FaceColor::Green
    } else if position / 10 == 3 {
        FaceColor::White
    } else if position / 10 == 4 {
        FaceColor::Blue
    } else {
        FaceColor::Magenta
    }
}

impl View for Cube {
    type V = PolyhedronView;

    closed spec fn view(&self) -> PolyhedronView {
        PolyhedronView {
            solved: self.solved_state@,
            start: self.start_state@,
            current: self.current_state@,
            before: self.before_state@,
            applied: self.applied_permutations@,
        }
    }
}

impl Cube {
    /// The parts of the cube are in order.
    pub closed spec fn parts_wf(&self) -> bool {
        &&& self.solved_state.wf()
        &&& self.start_state.wf()
        &&& self.current_state.wf()
        &&& self.before_state.wf()
        &&& self.applied_permutations.wf()
    }

    /// The cube is in order: it is solved when every position holds the
    /// facelet of its own number, and all its states have the 24 positions of
    /// the cube.
    pub open spec fn wf(&self) -> bool {
        &&& self.parts_wf()
        &&& self@.wf()
        &&& self@.solved == cube_2x2_solved()
        &&& self@.start == cube_2x2_solved()
    }

    /// A solved cube, no move made.
    pub fn create_cube() -> (cube: Self)
        ensures
            cube.wf(),
            cube@ == (PolyhedronView {
                solved: cube_2x2_solved(),
                start: cube_2x2_solved(),
                current: cube_2x2_solved(),
                before: cube_2x2_solved(),
                applied: PermutationView::identity(),
            }),
    {
        let solved_state = solved_state();
        let before_state = solved_state.clone();
        let start_state = solved_state.clone();
        let current_state = solved_state.clone();
        proof {
            solved_state.lemma_positions();
            lemma_turn_by_identity(start_state@);
        }
        Cube {
            solved_state,
            before_state,
            applied_permutations: Permutation::identity(),
            start_state,
            current_state,
        }
    }

    /// Turns the cube by `perm`. Fails, and leaves the cube as it is, when the
    /// permutation sends a position of the cube to a place that is none.
    pub fn rotate(&mut self, perm: Permutation) -> (done: Result<(), PuzzleError>)
        requires
            old(self).wf(),
            perm.wf(),
        ensures
            final(self).wf(),
            match done {
                Ok(()) => {
                    &&& turnable(old(self)@.current, perm@.one_line)
                    &&& final(self)@ == old(self)@.turned(perm@)
                },
                Err(error) => {
                    &&& error == PuzzleError::Definition
                    &&& !turnable(old(self)@.current, perm@.one_line)
                    &&& final(self)@ == old(self)@
                },
            },
    {
        let turned = match self.current_state.permuted(&perm) {
            Some(turned) => turned,
            None => {
                return Err(PuzzleError::Definition);
            },
        };
        let applied = self.applied_permutations.compose(&perm);
        let before = self.current_state.clone();
        proof {
            let a = perm@.one_line;
            assert(turned@.dom() =~= self.current_state@.dom());
            assert(turnable(self.start_state@, a)) by {
                assert forall|key: usize| #[trigger]
                    self.start_state@.contains_key(key) implies self.start_state@.contains_key(
                    image(a, key as int) as usize,
                ) by {
                    assert(self.current_state@.contains_key(key));
                }
            }
            lemma_turn_by_composite(self.start_state@, self.applied_permutations@.one_line, a);
        }
        self.applied_permutations = applied;
        self.before_state = before;
        self.current_state = turned;
        Ok(())
    }

    /// The name of the face of `position`.
    pub fn get_face_name(position: usize) -> (name: String)
        requires
            position / 10 <= 5,
        ensures
            name@ == cube_face_name_of(position),
    {
        let face = position / 10;
        if face == 0 {
            String::from_str("F")
        } else if face == 1 {
            String::from_str("U")
        } else if face == 2 {
            String::from_str("R")
        } else if face == 3 {
            String::from_str("D")
        } else if face == 4 {
            String::from_str("L")
        } else {
            String::from_str("B")
        }
    }

    /// The colour of the face of `position`.
    pub fn get_color(position: usize) -> (color: FaceColor)
        requires
            position / 10 <= 5,
        ensures
            color == cube_color_of(position),
    {
        let face = position / 10;
        if face == 0 {
            FaceColor::Red
        } else if face == 1 {
            FaceColor::Yellow
        } else if face == 2 {
            FaceColor::Green
        } else if face == 3 {
            FaceColor::White
        } else if face == 4 {
            FaceColor::Blue
        } else {
            FaceColor::Magenta
        }
    }

    /// The facelet at `position`, if the cube has that position.
    pub fn get_facelet(&self, position: usize) -> (facelet: Option<usize>)
        requires
            self.wf(),
        ensures
            facelet == (if self@.current.contains_key(position) {
                Some(self@.current[position])
            } else {
                None
            }),
    {
        self.current_state.get(position)
    }

    /// Whether the last move put another facelet at `position`.
    pub fn has_changed(&self, position: usize) -> (changed: bool)
        requires
            self.wf(),
            self@.current.contains_key(position),
        ensures
            changed == (self@.current[position] != self@.before[position]),
    {
        let now = self.current_state.get(position).unwrap();
        let then = self.before_state.get(position).unwrap();
        now != then
    }

    /// Whether every position holds the facelet of its own number.
    pub fn is_solved(&self) -> (solved: bool)
        requires
            self.wf(),
        ensures
            solved == (self@.current == self@.solved),
    {
        self.current_state.equals(&self.solved_state)
    }

    /// The label of the moves made so far.
    pub fn applied_label(&self) -> (label: String)
        ensures
            label@ == self@.applied.label,
    {
        self.applied_permutations.print()
    }

    /// The current state as the text of a binding that holds it: a first
    /// line, then one line for each position in ascending order, with a line
    /// that names the face before the first position of each face, then a last
    /// line.
    pub fn current_state_lines(&self) -> (lines: Vec<String>)
        requires
            self.wf(),
        ensures
            lines_view(lines@) == table_lines(
                "let solved_state: HashMap<usize, usize> = HashMap::from(["@,
                entries_of(self@.current, positions_of(self@.current)),
                Seq::new(
                    positions_of(self@.current).len(),
                    |i: int| cube_face_name_of(positions_of(self@.current)[i]),
                ),
                "]);"@,
            ),
    {
        let entries = self.current_state.entries();
        let positions = self.current_state.positions();
        let mut faces: Vec<String> = Vec::with_capacity(entries.len());
        let mut i: usize = 0;
        while i < positions.len()
            invariant
                self.wf(),
                i <= positions@.len(),
                positions@ == positions_of(self@.current),
                positions@.to_set() == self@.current.dom(),
                faces@.len() == i,
                forall|j: int|
                    0 <= j < i ==> (#[trigger] faces@[j])@ == cube_face_name_of(positions@[j]),
            decreases positions@.len() - i,
        {
            let position = positions[i];
            proof {
                assert(positions@.to_set().contains(position));
                assert(self@.current.contains_key(position));
                assert(cube_2x2_solved().contains_key(position));
            }
            faces.push(Cube::get_face_name(position));
            i += 1;
        }
        assert(lines_view(faces@) =~= Seq::new(
            positions_of(self@.current).len(),
            |i: int| cube_face_name_of(positions_of(self@.current)[i]),
        ));
        write_table(
            "let solved_state: HashMap<usize, usize> = HashMap::from([",
            &entries,
            &faces,
            "]);",
        )
    }
}

} // verus!
