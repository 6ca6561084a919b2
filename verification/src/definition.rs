//! What a puzzle variant has to say of itself: its positions, its solved and
//! its first state, its named moves, and the face and colour of a facelet.

use crate::errors::PuzzleError;
use crate::facelets::FaceletState;
use crate::permutations::{Permutation, PermutationView};
use vstd::prelude::*;
use vstd::string::{StrSliceExecFns, StringExecFns};

verus! {

/// The colour in which a face is shown.
#[derive(Debug, Clone, Copy, PartialEq, Eq, Structural)]
pub enum FaceColor {
    Red,
    Yellow,
    Green,
    White,
    Blue,
    Magenta,
    Grey0,
}

/// Whether the usual naming knows a face for `position`: the tens of a
/// position number its face, from 0 to 5.
pub open spec fn has_default_face(position: usize) -> bool {
    position / 10 <= 5
}

/// The usual name of the face of `position`: `f`, `u`, `r`, `d`, `l` or `b`,
/// by the tens of the position.
pub open spec fn default_face_name_of(position: usize) -> Seq<char> {
    if position / 10 == 0 {
        "f"@
    } else if position / 10 == 1 {
        "u"@
    } else if position / 10 == 2 {
        "r"@
    } else if position / 10 == 3 {
        "d"@
    } else if position / 10 == 4 {
        "l"@
    } else {
        "b"@
    }
}

/// The usual colour of a face, by its name; grey for a name that is no face.
pub open spec fn default_color_of(face_name: Seq<char>) -> FaceColor {
    if face_name == "f"@ {
        FaceColor::Red
    } else if face_name == "u"@ {
        FaceColor::Yellow
    } else if face_name == "r"@ {
        FaceColor::Green
    } else if face_name == "d"@ {
        FaceColor::White
    } else if face_name == "l"@ {
        FaceColor::Blue
    } else if face_name == "b"@ {
        FaceColor::Magenta
    } else {
        FaceColor::Grey0
    }
}

/// The only character of `text`, if it has exactly one.
pub fn single_char(text: &str) -> (only: Option<char>)
    ensures
        match only {
            Some(c) => text@ == seq![c],
            None => text@.len() != 1,
        },
{
    if text.unicode_len() == 1 {
        let c = text.get_char(0);
        assert(text@ =~= seq![c]);
        Some(c)
    } else {
        None
    }
}

/// A puzzle variant.
pub trait PolyhedronDefinition {
    /// The definition is in order.
    spec fn wf(&self) -> bool;

    /// The state in which a puzzle of this variant begins.
    spec fn start_map(&self) -> Map<usize, usize>;

    /// The state in which the puzzle is solved.
    spec fn solved_map(&self) -> Map<usize, usize>;

    /// The moves, by name.
    spec fn move_table(&self) -> Map<Seq<char>, PermutationView>;

    /// Whether `position` lies on a face.
    spec fn has_face(&self, position: usize) -> bool;

    /// The name of the face on which `position` lies.
    spec fn face_name_of(&self, position: usize) -> Seq<char>;

    /// The colour of the face of that name.
    spec fn color_of(&self, face_name: Seq<char>) -> FaceColor;

    /// Both states have the same positions, every position and every facelet
    /// lies on a face, and every move is a well-formed permutation.
    proof fn lemma_definition(&self)
        requires
            self.wf(),
        ensures
            self.start_map().dom() == self.solved_map().dom(),
            forall|position: usize| #[trigger]
                self.solved_map().contains_key(position) ==> self.has_face(position)
                    && self.has_face(self.solved_map()[position]) && self.has_face(
                    self.start_map()[position],
                ),
            forall|name: Seq<char>| #[trigger]
                self.move_table().contains_key(name) ==> self.move_table()[name].wf(),
    ;

    /// The state in which a puzzle of this variant begins.
    fn start_state(&self) -> (state: FaceletState)
        requires
            self.wf(),
        ensures
            state.wf(),
            state@ == self.start_map(),
    ;

    /// The state in which the puzzle is solved.
    fn solved_state(&self) -> (state: FaceletState)
        requires
            self.wf(),
        ensures
            state.wf(),
            state@ == self.solved_map(),
    ;

    /// The colour of the face of that name.
    fn get_color(&self, face_name: String) -> (color: FaceColor)
        ensures
            color == self.color_of(face_name@),
    ;

    /// The usual colour of the face of that name.
    fn default_get_color(&self, face_name: String) -> (color: FaceColor)
        ensures
            color == default_color_of(face_name@),
    {
        proof {
            reveal_strlit("f");
            reveal_strlit("u");
            reveal_strlit("r");
            reveal_strlit("d");
            reveal_strlit("l");
            reveal_strlit("b");
            assert("f"@.len() == 1 && "f"@[0] == 'f');
            assert("u"@.len() == 1 && "u"@[0] == 'u');
            assert("r"@.len() == 1 && "r"@[0] == 'r');
            assert("d"@.len() == 1 && "d"@[0] == 'd');
            assert("l"@.len() == 1 && "l"@[0] == 'l');
            assert("b"@.len() == 1 && "b"@[0] == 'b');
        }
        match single_char(face_name.as_str()) {
            Some(c) => {
                assert(face_name@.len() == 1 && face_name@[0] == c);
                if c == 'f' {
                    assert(face_name@ =~= "f"@);
                    FaceColor::Red
                } else if c == 'u' {
                    assert(face_name@ =~= "u"@);
                    FaceColor::Yellow
                } else if c == 'r' {
                    assert(face_name@ =~= "r"@);
                    FaceColor::Green
                } else if c == 'd' {
                    assert(face_name@ =~= "d"@);
                    FaceColor::White
                } else if c == 'l' {
                    assert(face_name@ =~= "l"@);
                    FaceColor::Blue
                } else if c == 'b' {
                    assert(face_name@ =~= "b"@);
                    FaceColor::Magenta
                } else {
                    FaceColor::Grey0
                }
            },
            None => FaceColor::Grey0,
        }
    }

    /// The name of the face on which `position` lies.
    fn get_face_name(&self, position: usize) -> (name: String)
        requires
            self.has_face(position),
        ensures
            name@ == self.face_name_of(position),
    ;

    /// The usual name of the face on which `position` lies.
    fn default_face_name(&self, position: usize) -> (name: String)
        requires
            has_default_face(position),
        ensures
            name@ == default_face_name_of(position),
    {
        let face = position / 10;
        if face == 0 {
            String::from_str("f")
        } else if face == 1 {
            String::from_str("u")
        } else if face == 2 {
            String::from_str("r")
        } else if face == 3 {
            String::from_str("d")
        } else if face == 4 {
            String::from_str("l")
        } else {
            String::from_str("b")
        }
    }

    /// The move of that name. Fails when the table has no such move.
    fn get_permutation(&self, permutation_name: String) -> (found: Result<&Permutation, PuzzleError>)
        requires
            self.wf(),
        ensures
            match found {
                Ok(permutation) => {
                    &&& self.move_table().contains_key(permutation_name@)
                    &&& permutation@ == self.move_table()[permutation_name@]
                    &&& permutation.wf()
                },
                Err(error) => {
                    &&& error == PuzzleError::UnknownMove
                    &&& !self.move_table().contains_key(permutation_name@)
                },
            },
    ;
}

} // verus!
