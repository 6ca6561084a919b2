//! The tetrahedron of three layers, inflated: four faces of six facelets
//! each.
//!
//! A position is ten times its face plus its place on the face, from 1 to 6;
//! the faces are numbered front 0, right 2, down 3, left 4.

use crate::cycles::{
    cycles_view, disjoint_cycles, has_degenerate_cycle, lemma_cycles_bound_unique,
};
use crate::definition::{
    default_face_name_of, has_default_face, single_char, FaceColor, PolyhedronDefinition,
};
use crate::errors::PuzzleError;
use crate::facelets::FaceletState;
use crate::move_table::MoveTable;
use crate::permutations::{Permutation, PermutationView};
use vstd::prelude::*;
use vstd::string::StringExecFns;

verus! {

/// The inflated tetrahedron, with its table of moves.
pub struct TetrahedronInflated3x3Definition {
    permitted_permutations: MoveTable,
}

/// `position` is one of the 24 positions of the tetrahedron.
pub open spec fn is_tetrahedron_position(position: usize) -> bool {
    (position / 10 == 0 || position / 10 == 2 || position / 10 == 3 || position / 10 == 4) && 1
        <= position % 10 <= 6
}

/// The solved tetrahedron: every position holds the facelet of its own
/// number.
pub open spec fn tetrahedron_solved() -> Map<usize, usize> {
    Map::new(|position: usize| is_tetrahedron_position(position), |position: usize| position)
}

/// The colour of a face of the tetrahedron, by its name; grey for a name
/// that is none of its faces.
pub open spec fn tetrahedron_color_of(face_name: Seq<char>) -> FaceColor {
    if face_name == "f"@ {
        FaceColor::Red
    } else if face_name == "r"@ {
        FaceColor::Green
    } else if face_name == "d"@ {
        FaceColor::Yellow
    } else if face_name == "l"@ {
        FaceColor::Blue
    } else {
        FaceColor::Grey0
    }
}

/// The cycles of the turn of the front face.
pub open spec fn front_cycles() -> Seq<Seq<usize>> {
    seq![
        seq![1usize, 6, 4],
        seq![2usize, 3, 5],
        seq![24usize, 34, 44],
        seq![26usize, 36, 46],
        seq![25usize, 35, 45],
    ]
}

/// The turn of the front face.
pub open spec fn front_view() -> PermutationView {
    PermutationView::from_cycles("f"@, front_cycles())
}

fn front() -> (turn: Permutation)
    ensures
        turn.wf(),
        turn@ == front_view(),
{
    let cycles: Vec<Vec<usize>> = vec![
        vec![1, 6, 4],
        vec![2, 3, 5],
        vec![24, 34, 44],
        vec![26, 36, 46],
        vec![25, 35, 45],
    ];
    proof {
        let cv = cycles_view(&cycles);
        assert(cv =~= front_cycles());
        assert(disjoint_cycles(cv));
        assert(cv[3][2] == 46);
        lemma_cycles_bound_unique(cv, 47);
        assert(!has_degenerate_cycle(cv));
    }
    Permutation::create_permutation(String::from_str("f"), cycles).unwrap()
}

/// The cycles of the turn of the left face.
pub open spec fn left_cycles() -> Seq<Seq<usize>> {
    seq![
        seq![41usize, 46, 44],
        seq![42usize, 43, 45],
        seq![1usize, 36, 21],
        seq![2usize, 33, 22],
        seq![4usize, 31, 24],
    ]
}

/// The turn of the left face.
pub open spec fn left_view() -> PermutationView {
    PermutationView::from_cycles("l"@, left_cycles())
}

fn left() -> (turn: Permutation)
    ensures
        turn.wf(),
        turn@ == left_view(),
{
    let cycles: Vec<Vec<usize>> = vec![
        vec![41, 46, 44],
        vec![42, 43, 45],
        vec![1, 36, 21],
        vec![2, 33, 22],
        vec![4, 31, 24],
    ];
    proof {
        let cv = cycles_view(&cycles);
        assert(cv =~= left_cycles());
        assert(disjoint_cycles(cv));
        assert(cv[0][1] == 46);
        lemma_cycles_bound_unique(cv, 47);
        assert(!has_degenerate_cycle(cv));
    }
    Permutation::create_permutation(String::from_str("l"), cycles).unwrap()
}

/// The cycles of the turn of the right face.
pub open spec fn right_cycles() -> Seq<Seq<usize>> {
    seq![
        seq![21usize, 26, 24],
        seq![22usize, 23, 25],
        seq![6usize, 46, 31],
        seq![3usize, 43, 32],
        seq![1usize, 41, 34],
    ]
}

/// The turn of the right face.
pub open spec fn right_view() -> PermutationView {
    PermutationView::from_cycles("r"@, right_cycles())
}

fn right() -> (turn: Permutation)
    ensures
        turn.wf(),
        turn@ == right_view(),
{
    let cycles: Vec<Vec<usize>> = vec![
        vec![21, 26, 24],
        vec![22, 23, 25],
        vec![6, 46, 31],
        vec![3, 43, 32],
        vec![1, 41, 34],
    ];
    proof {
        let cv = cycles_view(&cycles);
        assert(cv =~= right_cycles());
        assert(disjoint_cycles(cv));
        assert(cv[2][1] == 46);
        lemma_cycles_bound_unique(cv, 47);
        assert(!has_degenerate_cycle(cv));
    }
    Permutation::create_permutation(String::from_str("r"), cycles).unwrap()
}

/// The cycles of the turn of the lower face.
pub open spec fn down_cycles() -> Seq<Seq<usize>> {
    seq![
        seq![31usize, 36, 34],
        seq![32usize, 33, 35],
        seq![4usize, 26, 41],
        seq![5usize, 23, 42],
        seq![6usize, 21, 44],
    ]
}

/// The turn of the lower face.
pub open spec fn down_view() -> PermutationView {
    PermutationView::from_cycles("d"@, down_cycles())
}

fn down() -> (turn: Permutation)
    ensures
        turn.wf(),
        turn@ == down_view(),
{
    let cycles: Vec<Vec<usize>> = vec![
        vec![31, 36, 34],
        vec![32, 33, 35],
        vec![4, 26, 41],
        vec![5, 23, 42],
        vec![6, 21, 44],
    ];
    proof {
        let cv = cycles_view(&cycles);
        assert(cv =~= down_cycles());
        assert(disjoint_cycles(cv));
        assert(cv[4][2] == 44);
        lemma_cycles_bound_unique(cv, 45);
        assert(!has_degenerate_cycle(cv));
    }
    Permutation::create_permutation(String::from_str("d"), cycles).unwrap()
}

/// The moves of the tetrahedron, by name: the identity, the four turns and
/// their inverses.
pub open spec fn tetrahedron_moves() -> Map<Seq<char>, PermutationView> {
    Map::<Seq<char>, PermutationView>::empty()
        .insert("id"@, PermutationView::identity())
        .insert("f"@, front_view())
        .insert("l"@, left_view())
        .insert("r"@, right_view())
        .insert("d"@, down_view())
        .insert("fi"@, front_view().inverse())
        .insert("li"@, left_view().inverse())
        .insert("ri"@, right_view().inverse())
        .insert("di"@, down_view().inverse())
}

/// `name` is the name of a move of the tetrahedron.
pub open spec fn is_tetrahedron_move(name: Seq<char>) -> bool {
    name == "id"@ || name == "f"@ || name == "l"@ || name == "r"@ || name == "d"@ ||
        name == "fi"@ || name == "li"@ || name == "ri"@ || name == "di"@
}

/// What the table holds under each name: each turn under the letter of its
/// face, its inverse under that letter followed by `i`;
/// and it holds no move under any other name.
pub proof fn law_tetrahedron_table()
    ensures
        tetrahedron_moves()["f"@] == front_view(),
        tetrahedron_moves()["l"@] == left_view(),
        tetrahedron_moves()["r"@] == right_view(),
        tetrahedron_moves()["d"@] == down_view(),
        tetrahedron_moves()["fi"@] == tetrahedron_moves()["f"@].inverse(),
        tetrahedron_moves()["li"@] == tetrahedron_moves()["l"@].inverse(),
        tetrahedron_moves()["ri"@] == tetrahedron_moves()["r"@].inverse(),
        tetrahedron_moves()["di"@] == tetrahedron_moves()["d"@].inverse(),
        tetrahedron_moves()["id"@] == PermutationView::identity(),
        forall|name: Seq<char>| #[trigger]
            tetrahedron_moves().contains_key(name) <==> is_tetrahedron_move(name),
{
    reveal_strlit("id");
    reveal_strlit("f");
    reveal_strlit("l");
    reveal_strlit("r");
    reveal_strlit("d");
    reveal_strlit("fi");
    reveal_strlit("li");
    reveal_strlit("ri");
    reveal_strlit("di");
    assert("id"@.len() == 2 && "id"@[0] == 'i');
    assert("f"@.len() == 1 && "f"@[0] == 'f');
    assert("l"@.len() == 1 && "l"@[0] == 'l');
    assert("r"@.len() == 1 && "r"@[0] == 'r');
    assert("d"@.len() == 1 && "d"@[0] == 'd');
    assert("fi"@.len() == 2 && "fi"@[0] == 'f');
    assert("li"@.len() == 2 && "li"@[0] == 'l');
    assert("ri"@.len() == 2 && "ri"@[0] == 'r');
    assert("di"@.len() == 2 && "di"@[0] == 'd');
}

impl TetrahedronInflated3x3Definition {
    /// The tetrahedron with its moves.
    pub fn new() -> (definition: Self)
        ensures
            definition.wf(),
    {
        let mut permitted_permutations = MoveTable::new();

        let f = front();
        let l = left();
        let r = right();
        let d = down();

        let fi = f.inverse();
        let li = l.inverse();
        let ri = r.inverse();
        let di = d.inverse();

        permitted_permutations.insert(String::from_str("id"), Permutation::identity());
        permitted_permutations.insert(String::from_str("f"), f);
        permitted_permutations.insert(String::from_str("l"), l);
        permitted_permutations.insert(String::from_str("r"), r);
        permitted_permutations.insert(String::from_str("d"), d);
        permitted_permutations.insert(String::from_str("fi"), fi);
        permitted_permutations.insert(String::from_str("li"), li);
        permitted_permutations.insert(String::from_str("ri"), ri);
        permitted_permutations.insert(String::from_str("di"), di);

        TetrahedronInflated3x3Definition { permitted_permutations }
    }
}

impl PolyhedronDefinition for TetrahedronInflated3x3Definition {
    closed spec fn wf(&self) -> bool {
        &&& self.permitted_permutations.wf()
        &&& self.permitted_permutations@ == tetrahedron_moves()
    }

    open spec fn start_map(&self) -> Map<usize, usize> {
        tetrahedron_solved()
    }

    open spec fn solved_map(&self) -> Map<usize, usize> {
        tetrahedron_solved()
    }

    open spec fn move_table(&self) -> Map<Seq<char>, PermutationView> {
        tetrahedron_moves()
    }

    open spec fn has_face(&self, position: usize) -> bool {
        has_default_face(position)
    }

    open spec fn face_name_of(&self, position: usize) -> Seq<char> {
        default_face_name_of(position)
    }

    open spec fn color_of(&self, face_name: Seq<char>) -> FaceColor {
        tetrahedron_color_of(face_name)
    }

    proof fn lemma_definition(&self) {
        self.permitted_permutations.lemma_moves_wf();
    }

    fn start_state(&self) -> (state: FaceletState) {
        solved_state()
    }

    fn solved_state(&self) -> (state: FaceletState) {
        solved_state()
    }

    fn get_color(&self, face_name: String) -> (color: FaceColor) {
        proof {
            reveal_strlit("f");
            reveal_strlit("r");
            reveal_strlit("d");
            reveal_strlit("l");
            assert("f"@.len() == 1 && "f"@[0] == 'f');
            assert("r"@.len() == 1 && "r"@[0] == 'r');
            assert("d"@.len() == 1 && "d"@[0] == 'd');
            assert("l"@.len() == 1 && "l"@[0] == 'l');
        }
        match single_char(face_name.as_str()) {
            Some(c) => {
                assert(face_name@.len() == 1 && face_name@[0] == c);
                if c == 'f' {
                    assert(face_name@ =~= "f"@);
                    FaceColor::Red
                } else if c == 'r' {
                    assert(face_name@ =~= "r"@);
                    FaceColor::Green
                } else if c == 'd' {
                    assert(face_name@ =~= "d"@);
                    FaceColor::Yellow
                } else if c == 'l' {
                    assert(face_name@ =~= "l"@);
                    FaceColor::Blue
                } else {
                    FaceColor::Grey0
                }
            },
            None => FaceColor::Grey0,
        }
    }

    fn get_face_name(&self, position: usize) -> (name: String) {
        self.default_face_name(position)
    }

    fn get_permutation(&self, permutation_name: String) -> (found: Result<
        &Permutation,
        PuzzleError,
    >) {
        match self.permitted_permutations.get(&permutation_name) {
            Some(permutation) => Ok(permutation),
            None => Err(PuzzleError::UnknownMove),
        }
    }
}

/// The solved tetrahedron.
pub fn solved_state() -> (state: FaceletState)
    ensures
        state.wf(),
        state@ == tetrahedron_solved(),
{
    let mut state = FaceletState::new();
    state.add_face(0, 6);
    state.add_face(2, 6);
    state.add_face(3, 6);
    state.add_face(4, 6);
    assert(state@ =~= tetrahedron_solved());
    state
}

} // verus!
