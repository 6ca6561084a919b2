//! The cube of two by two by two: six faces of four facelets each.
//!
//! A position is ten times its face plus its place on the face, from 1 to 4;
//! the faces are numbered front 0, up 1, right 2, down 3, left 4, back 5.

use crate::cycles::{
    cycles_view, disjoint_cycles, has_degenerate_cycle, lemma_cycles_bound_unique,
};
use crate::definition::{
    default_color_of, default_face_name_of, has_default_face, FaceColor, PolyhedronDefinition,
};
use crate::errors::PuzzleError;
use crate::facelets::FaceletState;
use crate::move_table::MoveTable;
use crate::permutations::{compose_all, views_of, Permutation, PermutationView};
use vstd::prelude::*;
use vstd::string::StringExecFns;

verus! {

/// The cube of two by two by two, with its table of moves.
pub struct Cube2x2Definition {
    permitted_permutations: MoveTable,
}

/// `position` is one of the 24 positions of the cube.
pub open spec fn is_cube_position(position: usize) -> bool {
    position / 10 <= 5 && 1 <= position % 10 <= 4
}

/// The solved cube: every position holds the facelet of its own number.
pub open spec fn cube_2x2_solved() -> Map<usize, usize> {
    Map::new(|position: usize| is_cube_position(position), |position: usize| position)
}

/// A cube that is solved but for three corners on the diagonal.
pub open spec fn cube_2x2_diagonal_fixed() -> Map<usize, usize> {
    cube_2x2_solved().insert(3, 32).insert(24, 3).insert(32, 24).insert(34, 53).insert(
        44,
        34,
    ).insert(53, 44)
}

/// A cube that is solved but for two corners, each turned in its place.
pub open spec fn cube_2x2_flipped_corners() -> Map<usize, usize> {
    cube_2x2_solved().insert(3, 54).insert(23, 32).insert(24, 33).insert(32, 23).insert(
        33,
        24,
    ).insert(54, 3)
}

/// The cycles of the quarter turn of the front face.
pub open spec fn front_cycles() -> Seq<Seq<usize>> {
    seq![seq![1usize, 4, 3, 2], seq![13usize, 42, 31, 24], seq![14usize, 43, 32, 21]]
}

/// The quarter turn of the front face.
pub open spec fn front_view() -> PermutationView {
    PermutationView::from_cycles("f"@, front_cycles())
}

fn front() -> (turn: Permutation)
    ensures
        turn.wf(),
        turn@ == front_view(),
{
    let cycles: Vec<Vec<usize>> = vec![
        vec![1, 4, 3, 2],
        vec![13, 42, 31, 24],
        vec![14, 43, 32, 21],
    ];
    proof {
        let cv = cycles_view(&cycles);
        assert(cv =~= front_cycles());
        assert(disjoint_cycles(cv));
        assert(cv[2][1] == 43);
        lemma_cycles_bound_unique(cv, 44);
        assert(!has_degenerate_cycle(cv));
    }
    Permutation::create_permutation(String::from_str("f"), cycles).unwrap()
}

/// The cycles of the quarter turn of the left face.
pub open spec fn left_cycles() -> Seq<Seq<usize>> {
    seq![seq![1usize, 11, 53, 31], seq![4usize, 14, 52, 34], seq![41usize, 44, 43, 42]]
}

/// The quarter turn of the left face.
pub open spec fn left_view() -> PermutationView {
    PermutationView::from_cycles("l"@, left_cycles())
}

fn left() -> (turn: Permutation)
    ensures
        turn.wf(),
        turn@ == left_view(),
{
    let cycles: Vec<Vec<usize>> = vec![
        vec![1, 11, 53, 31],
        vec![4, 14, 52, 34],
        vec![41, 44, 43, 42],
    ];
    proof {
        let cv = cycles_view(&cycles);
        assert(cv =~= left_cycles());
        assert(disjoint_cycles(cv));
        assert(cv[0][2] == 53);
        lemma_cycles_bound_unique(cv, 54);
        assert(!has_degenerate_cycle(cv));
    }
    Permutation::create_permutation(String::from_str("l"), cycles).unwrap()
}

/// The cycles of the quarter turn of the upper face.
pub open spec fn up_cycles() -> Seq<Seq<usize>> {
    seq![seq![1usize, 21, 51, 41], seq![2usize, 22, 52, 42], seq![11usize, 14, 13, 12]]
}

/// The quarter turn of the upper face.
pub open spec fn up_view() -> PermutationView {
    PermutationView::from_cycles("u"@, up_cycles())
}

fn up() -> (turn: Permutation)
    ensures
        turn.wf(),
        turn@ == up_view(),
{
    let cycles: Vec<Vec<usize>> = vec![
        vec![1, 21, 51, 41],
        vec![2, 22, 52, 42],
        vec![11, 14, 13, 12],
    ];
    proof {
        let cv = cycles_view(&cycles);
        assert(cv =~= up_cycles());
        assert(disjoint_cycles(cv));
        assert(cv[1][2] == 52);
        lemma_cycles_bound_unique(cv, 53);
        assert(!has_degenerate_cycle(cv));
    }
    Permutation::create_permutation(String::from_str("u"), cycles).unwrap()
}

/// The cycles of the quarter turn of the right face.
pub open spec fn right_cycles() -> Seq<Seq<usize>> {
    seq![seq![2usize, 32, 54, 12], seq![3usize, 33, 51, 13], seq![21usize, 24, 23, 22]]
}

/// The quarter turn of the right face.
pub open spec fn right_view() -> PermutationView {
    PermutationView::from_cycles("r"@, right_cycles())
}

fn right() -> (turn: Permutation)
    ensures
        turn.wf(),
        turn@ == right_view(),
{
    let cycles: Vec<Vec<usize>> = vec![
        vec![2, 32, 54, 12],
        vec![3, 33, 51, 13],
        vec![21, 24, 23, 22],
    ];
    proof {
        let cv = cycles_view(&cycles);
        assert(cv =~= right_cycles());
        assert(disjoint_cycles(cv));
        assert(cv[0][2] == 54);
        lemma_cycles_bound_unique(cv, 55);
        assert(!has_degenerate_cycle(cv));
    }
    Permutation::create_permutation(String::from_str("r"), cycles).unwrap()
}

/// The cycles of the quarter turn of the lower face.
pub open spec fn down_cycles() -> Seq<Seq<usize>> {
    seq![seq![3usize, 43, 53, 23], seq![4usize, 44, 54, 24], seq![31usize, 34, 33, 32]]
}

/// The quarter turn of the lower face.
pub open spec fn down_view() -> PermutationView {
    PermutationView::from_cycles("d"@, down_cycles())
}

fn down() -> (turn: Permutation)
    ensures
        turn.wf(),
        turn@ == down_view(),
{
    let cycles: Vec<Vec<usize>> = vec![
        vec![3, 43, 53, 23],
        vec![4, 44, 54, 24],
        vec![31, 34, 33, 32],
    ];
    proof {
        let cv = cycles_view(&cycles);
        assert(cv =~= down_cycles());
        assert(disjoint_cycles(cv));
        assert(cv[1][2] == 54);
        lemma_cycles_bound_unique(cv, 55);
        assert(!has_degenerate_cycle(cv));
    }
    Permutation::create_permutation(String::from_str("d"), cycles).unwrap()
}

/// The cycles of the quarter turn of the back face.
pub open spec fn back_cycles() -> Seq<Seq<usize>> {
    seq![seq![11usize, 22, 33, 44], seq![12usize, 23, 34, 41], seq![51usize, 54, 53, 52]]
}

/// The quarter turn of the back face.
pub open spec fn back_view() -> PermutationView {
    PermutationView::from_cycles("b"@, back_cycles())
}

fn back() -> (turn: Permutation)
    ensures
        turn.wf(),
        turn@ == back_view(),
{
    let cycles: Vec<Vec<usize>> = vec![
        vec![11, 22, 33, 44],
        vec![12, 23, 34, 41],
        vec![51, 54, 53, 52],
    ];
    proof {
        let cv = cycles_view(&cycles);
        assert(cv =~= back_cycles());
        assert(disjoint_cycles(cv));
        assert(cv[2][1] == 54);
        lemma_cycles_bound_unique(cv, 55);
        assert(!has_degenerate_cycle(cv));
    }
    Permutation::create_permutation(String::from_str("b"), cycles).unwrap()
}

/// A technique: the composite of the moves, taken from the left, under a name
/// of its own.
pub open spec fn technique(name: Seq<char>, moves: Seq<PermutationView>) -> PermutationView {
    compose_all(moves).relabel(name)
}

/// The moves of the technique `a_tech_right`, in the order in which they are made.
pub open spec fn a_tech_right_moves() -> Seq<PermutationView> {
    seq![
        front_view(),
        down_view().inverse(),
        front_view().inverse(),
        down_view().inverse(),
        right_view().inverse(),
        down_view(),
        right_view(),
    ]
}

/// The moves of the technique `b_tech_right`, in the order in which they are made.
pub open spec fn b_tech_right_moves() -> Seq<PermutationView> {
    seq![
        front_view(),
        down_view().inverse(),
        front_view().inverse(),
        down_view().inverse(),
        down_view().inverse(),
        right_view().inverse(),
        down_view(),
        down_view(),
        right_view(),
    ]
}

/// The moves of the technique `a_left_left`, in the order in which they are made.
pub open spec fn a_left_left_moves() -> Seq<PermutationView> {
    seq![
        front_view().inverse(),
        down_view(),
        front_view(),
        down_view(),
        left_view(),
        down_view().inverse(),
        left_view().inverse(),
    ]
}

/// The moves of the technique `b_tech_left`, in the order in which they are made.
pub open spec fn b_tech_left_moves() -> Seq<PermutationView> {
    seq![
        front_view().inverse(),
        down_view(),
        front_view(),
        down_view(),
        down_view(),
        left_view(),
        down_view().inverse(),
        down_view().inverse(),
        left_view().inverse(),
    ]
}

/// The moves of the technique `c_tech_right`, in the order in which they are made.
pub open spec fn c_tech_right_moves() -> Seq<PermutationView> {
    seq![
        down_view().inverse(),
        front_view().inverse(),
        down_view(),
        front_view().inverse(),
        down_view().inverse(),
        front_view(),
        front_view(),
        down_view(),
    ]
}

/// The moves of the technique `d_tech_right`, in the order in which they are made.
pub open spec fn d_tech_right_moves() -> Seq<PermutationView> {
    seq![
        down_view().inverse(),
        front_view().inverse(),
        front_view().inverse(),
        down_view(),
        front_view(),
        down_view().inverse(),
        front_view(),
        down_view(),
    ]
}

/// The moves of the technique `c_tech_left`, in the order in which they are made.
pub open spec fn c_tech_left_moves() -> Seq<PermutationView> {
    Seq::empty()
}

/// The moves of the technique `d_tech_left`, in the order in which they are made.
pub open spec fn d_tech_left_moves() -> Seq<PermutationView> {
    Seq::empty()
}

/// The moves of the cube, by name: the identity, the six quarter turns, their
/// inverses and eight techniques.
pub open spec fn cube_2x2_moves() -> Map<Seq<char>, PermutationView> {
    Map::<Seq<char>, PermutationView>::empty()
        .insert("id"@, PermutationView::identity())
        .insert("f"@, front_view())
        .insert("u"@, up_view())
        .insert("r"@, right_view())
        .insert("d"@, down_view())
        .insert("l"@, left_view())
        .insert("b"@, back_view())
        .insert("fi"@, front_view().inverse())
        .insert("li"@, left_view().inverse())
        .insert("ui"@, up_view().inverse())
        .insert("ri"@, right_view().inverse())
        .insert("di"@, down_view().inverse())
        .insert("bi"@, back_view().inverse())
        .insert("a_tech_right"@, technique("a_tech_right"@, a_tech_right_moves()))
        .insert("b_tech_right"@, technique("b_tech_right"@, b_tech_right_moves()))
        .insert("a_left_left"@, technique("a_left_left"@, a_left_left_moves()))
        .insert("b_tech_left"@, technique("b_tech_left"@, b_tech_left_moves()))
        .insert("c_tech_right"@, technique("c_tech_right"@, c_tech_right_moves()))
        .insert("d_tech_right"@, technique("d_tech_right"@, d_tech_right_moves()))
        .insert("c_tech_left"@, technique("c_tech_left"@, c_tech_left_moves()))
        .insert("d_tech_left"@, technique("d_tech_left"@, d_tech_left_moves()))
}

/// `name` is the name of a move of the cube.
pub open spec fn is_cube_2x2_move(name: Seq<char>) -> bool {
    name == "id"@ || name == "f"@ || name == "u"@ || name == "r"@ || name == "d"@ ||
        name == "l"@ || name == "b"@ || name == "fi"@ || name == "li"@ || name == "ui"@ ||
        name == "ri"@ || name == "di"@ || name == "bi"@ || name == "a_tech_right"@ ||
        name == "b_tech_right"@ || name == "a_left_left"@ || name == "b_tech_left"@ ||
        name == "c_tech_right"@ || name == "d_tech_right"@ || name == "c_tech_left"@ ||
        name == "d_tech_left"@
}

/// What the table holds under each name: each quarter turn under the letter
/// of its face, its inverse under that letter followed by `i`, each technique
/// under its own name; and it holds no move under any other name.
pub proof fn law_cube_2x2_table()
    ensures
        cube_2x2_moves()["id"@] == PermutationView::identity(),
        cube_2x2_moves()["f"@] == front_view(),
        cube_2x2_moves()["u"@] == up_view(),
        cube_2x2_moves()["r"@] == right_view(),
        cube_2x2_moves()["d"@] == down_view(),
        cube_2x2_moves()["l"@] == left_view(),
        cube_2x2_moves()["b"@] == back_view(),
        cube_2x2_moves()["fi"@] == cube_2x2_moves()["f"@].inverse(),
        cube_2x2_moves()["ui"@] == cube_2x2_moves()["u"@].inverse(),
        cube_2x2_moves()["ri"@] == cube_2x2_moves()["r"@].inverse(),
        cube_2x2_moves()["di"@] == cube_2x2_moves()["d"@].inverse(),
        cube_2x2_moves()["li"@] == cube_2x2_moves()["l"@].inverse(),
        cube_2x2_moves()["bi"@] == cube_2x2_moves()["b"@].inverse(),
        cube_2x2_moves()["a_tech_right"@] == technique("a_tech_right"@, a_tech_right_moves()),
        cube_2x2_moves()["b_tech_right"@] == technique("b_tech_right"@, b_tech_right_moves()),
        cube_2x2_moves()["a_left_left"@] == technique("a_left_left"@, a_left_left_moves()),
        cube_2x2_moves()["b_tech_left"@] == technique("b_tech_left"@, b_tech_left_moves()),
        cube_2x2_moves()["c_tech_right"@] == technique("c_tech_right"@, c_tech_right_moves()),
        cube_2x2_moves()["d_tech_right"@] == technique("d_tech_right"@, d_tech_right_moves()),
        cube_2x2_moves()["c_tech_left"@] == technique("c_tech_left"@, c_tech_left_moves()),
        cube_2x2_moves()["d_tech_left"@] == technique("d_tech_left"@, d_tech_left_moves()),
        forall|name: Seq<char>| #[trigger]
            cube_2x2_moves().contains_key(name) <==> is_cube_2x2_move(name),
{
    reveal_strlit("id");
    reveal_strlit("f");
    reveal_strlit("u");
    reveal_strlit("r");
    reveal_strlit("d");
    reveal_strlit("l");
    reveal_strlit("b");
    reveal_strlit("fi");
    reveal_strlit("ui");
    reveal_strlit("ri");
    reveal_strlit("di");
    reveal_strlit("li");
    reveal_strlit("bi");
    reveal_strlit("a_tech_right");
    reveal_strlit("b_tech_right");
    reveal_strlit("a_left_left");
    reveal_strlit("b_tech_left");
    reveal_strlit("c_tech_right");
    reveal_strlit("d_tech_right");
    reveal_strlit("c_tech_left");
    reveal_strlit("d_tech_left");
    assert("id"@.len() == 2 && "id"@[0] == 'i');
    assert("f"@.len() == 1 && "f"@[0] == 'f');
    assert("u"@.len() == 1 && "u"@[0] == 'u');
    assert("r"@.len() == 1 && "r"@[0] == 'r');
    assert("d"@.len() == 1 && "d"@[0] == 'd');
    assert("l"@.len() == 1 && "l"@[0] == 'l');
    assert("b"@.len() == 1 && "b"@[0] == 'b');
    assert("fi"@.len() == 2 && "fi"@[0] == 'f');
    assert("ui"@.len() == 2 && "ui"@[0] == 'u');
    assert("ri"@.len() == 2 && "ri"@[0] == 'r');
    assert("di"@.len() == 2 && "di"@[0] == 'd');
    assert("li"@.len() == 2 && "li"@[0] == 'l');
    assert("bi"@.len() == 2 && "bi"@[0] == 'b');
    assert("a_tech_right"@.len() == 12 && "a_tech_right"@[0] == 'a');
    assert("b_tech_right"@.len() == 12 && "b_tech_right"@[0] == 'b');
    assert("a_left_left"@.len() == 11 && "a_left_left"@[0] == 'a');
    assert("b_tech_left"@.len() == 11 && "b_tech_left"@[0] == 'b');
    assert("c_tech_right"@.len() == 12 && "c_tech_right"@[0] == 'c');
    assert("d_tech_right"@.len() == 12 && "d_tech_right"@[0] == 'd');
    assert("c_tech_left"@.len() == 11 && "c_tech_left"@[0] == 'c');
    assert("d_tech_left"@.len() == 11 && "d_tech_left"@[0] == 'd');
}

impl Cube2x2Definition {
    /// The cube with its moves, each technique composed once.
    pub fn new() -> (definition: Self)
        ensures
            definition.wf(),
    {
        let mut permitted_permutations = MoveTable::new();

        let f = front();
        let l = left();
        let u = up();
        let r = right();
        let d = down();
        let b = back();

        let fi = f.inverse();
        let li = l.inverse();
        let ui = u.inverse();
        let ri = r.inverse();
        let di = d.inverse();
        let bi = b.inverse();

        let a_tech_right_list: Vec<&Permutation> = vec![&f, &di, &fi, &di, &ri, &d, &r];
        assert(views_of(a_tech_right_list@) =~= a_tech_right_moves());
        let a_tech_right = Permutation::create_permutation_from_composition(
            String::from_str("a_tech_right"),
            a_tech_right_list,
        );
        let b_tech_right_list: Vec<&Permutation> = vec![&f, &di, &fi, &di, &di, &ri, &d, &d, &r];
        assert(views_of(b_tech_right_list@) =~= b_tech_right_moves());
        let b_tech_right = Permutation::create_permutation_from_composition(
            String::from_str("b_tech_right"),
            b_tech_right_list,
        );
        let a_left_left_list: Vec<&Permutation> = vec![&fi, &d, &f, &d, &l, &di, &li];
        assert(views_of(a_left_left_list@) =~= a_left_left_moves());
        let a_left_left = Permutation::create_permutation_from_composition(
            String::from_str("a_left_left"),
            a_left_left_list,
        );
        let b_tech_left_list: Vec<&Permutation> = vec![&fi, &d, &f, &d, &d, &l, &di, &di, &li];
        assert(views_of(b_tech_left_list@) =~= b_tech_left_moves());
        let b_tech_left = Permutation::create_permutation_from_composition(
            String::from_str("b_tech_left"),
            b_tech_left_list,
        );
        let c_tech_right_list: Vec<&Permutation> = vec![&di, &fi, &d, &fi, &di, &f, &f, &d];
        assert(views_of(c_tech_right_list@) =~= c_tech_right_moves());
        let c_tech_right = Permutation::create_permutation_from_composition(
            String::from_str("c_tech_right"),
            c_tech_right_list,
        );
        let d_tech_right_list: Vec<&Permutation> = vec![&di, &fi, &fi, &d, &f, &di, &f, &d];
        assert(views_of(d_tech_right_list@) =~= d_tech_right_moves());
        let d_tech_right = Permutation::create_permutation_from_composition(
            String::from_str("d_tech_right"),
            d_tech_right_list,
        );
        let c_tech_left_list: Vec<&Permutation> = vec![];
        assert(views_of(c_tech_left_list@) =~= c_tech_left_moves());
        let c_tech_left = Permutation::create_permutation_from_composition(
            String::from_str("c_tech_left"),
            c_tech_left_list,
        );
        let d_tech_left_list: Vec<&Permutation> = vec![];
        assert(views_of(d_tech_left_list@) =~= d_tech_left_moves());
        let d_tech_left = Permutation::create_permutation_from_composition(
            String::from_str("d_tech_left"),
            d_tech_left_list,
        );

        permitted_permutations.insert(String::from_str("id"), Permutation::identity());
        permitted_permutations.insert(String::from_str("f"), f);
        permitted_permutations.insert(String::from_str("u"), u);
        permitted_permutations.insert(String::from_str("r"), r);
        permitted_permutations.insert(String::from_str("d"), d);
        permitted_permutations.insert(String::from_str("l"), l);
        permitted_permutations.insert(String::from_str("b"), b);
        permitted_permutations.insert(String::from_str("fi"), fi);
        permitted_permutations.insert(String::from_str("li"), li);
        permitted_permutations.insert(String::from_str("ui"), ui);
        permitted_permutations.insert(String::from_str("ri"), ri);
        permitted_permutations.insert(String::from_str("di"), di);
        permitted_permutations.insert(String::from_str("bi"), bi);
        permitted_permutations.insert(String::from_str("a_tech_right"), a_tech_right);
        permitted_permutations.insert(String::from_str("b_tech_right"), b_tech_right);
        permitted_permutations.insert(String::from_str("a_left_left"), a_left_left);
        permitted_permutations.insert(String::from_str("b_tech_left"), b_tech_left);
        permitted_permutations.insert(String::from_str("c_tech_right"), c_tech_right);
        permitted_permutations.insert(String::from_str("d_tech_right"), d_tech_right);
        permitted_permutations.insert(String::from_str("c_tech_left"), c_tech_left);
        permitted_permutations.insert(String::from_str("d_tech_left"), d_tech_left);

        Cube2x2Definition { permitted_permutations }
    }
}

impl PolyhedronDefinition for Cube2x2Definition {
    closed spec fn wf(&self) -> bool {
        &&& self.permitted_permutations.wf()
        &&& self.permitted_permutations@ == cube_2x2_moves()
    }

    open spec fn start_map(&self) -> Map<usize, usize> {
        cube_2x2_solved()
    }

    open spec fn solved_map(&self) -> Map<usize, usize> {
        cube_2x2_solved()
    }

    open spec fn move_table(&self) -> Map<Seq<char>, PermutationView> {
        cube_2x2_moves()
    }

    open spec fn has_face(&self, position: usize) -> bool {
        has_default_face(position)
    }

    open spec fn face_name_of(&self, position: usize) -> Seq<char> {
        default_face_name_of(position)
    }

    open spec fn color_of(&self, face_name: Seq<char>) -> FaceColor {
        default_color_of(face_name)
    }

    proof fn lemma_definition(&self) {
        self.permitted_permutations.lemma_moves_wf();
    }

    fn start_state(&self) -> (state: FaceletState) {
        solved_state()
    }

    fn solved_state(&self) -> (state: FaceletState) {
        solved_state()
    }

    fn get_color(&self, face_name: String) -> (color: FaceColor) {
        self.default_get_color(face_name)
    }

    fn get_face_name(&self, position: usize) -> (name: String) {
        self.default_face_name(position)
    }

    fn get_permutation(&self, permutation_name: String) -> (found: Result<
        &Permutation,
        PuzzleError,
    >) {
        match self.permitted_permutations.get(&permutation_name) {
            Some(permutation) => Ok(permutation),
            None => Err(PuzzleError::UnknownMove),
        }
    }
}

/// The solved cube.
pub fn solved_state() -> (state: FaceletState)
    ensures
        state.wf(),
        state@ == cube_2x2_solved(),
{
    let mut state = FaceletState::new();
    let mut face: usize = 0;
    while face <= 5
        invariant
            face <= 6,
            state.wf(),
            forall|position: usize| #[trigger]
                state@.contains_key(position) <==> position / 10 < face && 1 <= position % 10 <= 4,
            forall|position: usize|
                position / 10 < face && 1 <= position % 10 <= 4 ==> #[trigger] state@[position]
                    == position,
        decreases 6 - face,
    {
        state.add_face(face, 4);
        face += 1;
    }
    assert(state@ =~= cube_2x2_solved());
    state
}

/// A cube that is solved but for three corners on the diagonal.
pub fn diagonal_fixed() -> (state: FaceletState)
    ensures
        state.wf(),
        state@ == cube_2x2_diagonal_fixed(),
{
    let mut state = solved_state();
    state.insert(3, 32);
    state.insert(24, 3);
    state.insert(32, 24);
    state.insert(34, 53);
    state.insert(44, 34);
    state.insert(53, 44);
    state
}

/// A cube that is solved but for two corners, each turned in its place.
pub fn flipped_corners() -> (state: FaceletState)
    ensures
        state.wf(),
        state@ == cube_2x2_flipped_corners(),
{
    let mut state = solved_state();
    state.insert(3, 54);
    state.insert(23, 32);
    state.insert(24, 33);
    state.insert(32, 23);
    state.insert(33, 24);
    state.insert(54, 3);
    state
}

} // verus!
