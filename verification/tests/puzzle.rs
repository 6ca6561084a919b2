use polyhedron::cube::Cube;
use polyhedron::definition::{FaceColor, PolyhedronDefinition};
use polyhedron::definition_cube_2x2::{diagonal_fixed, flipped_corners, Cube2x2Definition};
use polyhedron::errors::PuzzleError;
use polyhedron::facelets::FaceletState;
use polyhedron::permutations::Permutation;
use polyhedron::puzzle::Polyhedron;
use polyhedron::tetrahedron_inflated_3x3::TetrahedronInflated3x3Definition;

fn cube_positions() -> Vec<usize> {
    let mut positions = Vec::new();
    for face in 0..6 {
        for slot in 1..=4 {
            positions.push(face * 10 + slot);
        }
    }
    positions
}

fn identity_entries(positions: &[usize]) -> Vec<(usize, usize)> {
    positions.iter().map(|p| (*p, *p)).collect()
}

#[test]
fn lib_it_works() {
    let polyhedron_definition = Cube2x2Definition::new();
    let mut cube2x2 = Polyhedron::create_polyhedron(polyhedron_definition);

    assert!(cube2x2.is_solved());
    assert_eq!(cube2x2.applied_label(), "id");
    assert_eq!(cube2x2.rotate("b_tech_right"), Ok(()));
    assert_eq!(cube2x2.applied_label(), "id * b_tech_right");
    assert!(!cube2x2.is_solved());
    assert!(cube2x2.has_moved());
}

#[test]
fn it_works() {
    let cube = Cube::create_cube();

    assert!(cube.is_solved());
    assert_eq!(cube.applied_label(), "id");
    assert_eq!(cube.get_facelet(11), Some(11));
    assert_eq!(cube.get_facelet(5), None);
}

#[test]
fn solved_cube_has_its_24_positions() {
    let definition = Cube2x2Definition::new();
    let solved = definition.solved_state();
    assert_eq!(solved.len(), 24);
    assert_eq!(solved.positions(), cube_positions());
    assert_eq!(solved.entries(), identity_entries(&cube_positions()));
    assert!(solved.equals(&definition.start_state()));
}

#[test]
fn solved_tetrahedron_has_its_24_positions() {
    let definition = TetrahedronInflated3x3Definition::new();
    let solved = definition.solved_state();
    let mut positions = Vec::new();
    for face in [0, 2, 3, 4] {
        for slot in 1..=6 {
            positions.push(face * 10 + slot);
        }
    }
    assert_eq!(solved.len(), 24);
    assert_eq!(solved.positions(), positions);
    assert_eq!(solved.entries(), identity_entries(&positions));
}

#[test]
fn one_front_turn_moves_the_facelet_of_4_to_1() {
    let mut puzzle = Polyhedron::create_polyhedron(Cube2x2Definition::new());
    assert_eq!(puzzle.rotate("f"), Ok(()));
    assert_eq!(puzzle.get_facelet(1), Some(4));
    assert_eq!(puzzle.get_facelet(4), Some(3));
    assert_eq!(puzzle.get_facelet(13), Some(42));
    assert_eq!(puzzle.get_facelet(11), Some(11));
    assert!(puzzle.has_changed(1));
    assert!(!puzzle.has_changed(11));
    assert_eq!(puzzle.before_state().get(1), Some(1));
}

#[test]
fn four_front_turns_solve_the_cube_and_fewer_do_not() {
    let mut puzzle = Polyhedron::create_polyhedron(Cube2x2Definition::new());
    for turn in 1..=4 {
        assert_eq!(puzzle.rotate("f"), Ok(()));
        assert_eq!(puzzle.is_solved(), turn == 4);
        assert_eq!(puzzle.current_state().equals(puzzle.solved_state()), turn == 4);
    }
    assert_eq!(puzzle.applied_label(), "id * f * f * f * f");
    assert!(puzzle.applied_permutations().is_identity());
    assert_eq!(puzzle.applied_permutations().degree(), 0);
}

#[test]
fn a_move_and_its_inverse_restore_the_state() {
    for name in ["f", "u", "r", "d", "l", "b", "a_tech_right", "c_tech_left"] {
        let definition = Cube2x2Definition::new();
        let made = definition.get_permutation(name.to_string()).unwrap();
        let back = made.inverse();
        let mut cube = Cube::create_cube();
        assert_eq!(cube.rotate(definition.get_permutation("l".to_string()).unwrap().clone()), Ok(()));
        let entries: Vec<Option<usize>> = cube_positions().iter().map(|p| cube.get_facelet(*p)).collect();
        assert_eq!(cube.rotate(made.clone()), Ok(()));
        assert_eq!(cube.rotate(back), Ok(()));
        let after: Vec<Option<usize>> = cube_positions().iter().map(|p| cube.get_facelet(*p)).collect();
        assert_eq!(entries, after);
    }
}

#[test]
fn a_named_move_and_its_named_inverse_restore_the_puzzle() {
    for (made, back) in [("f", "fi"), ("u", "ui"), ("r", "ri"), ("d", "di"), ("l", "li"), ("b", "bi")] {
        let mut puzzle = Polyhedron::create_polyhedron(Cube2x2Definition::new());
        assert_eq!(puzzle.rotate_many(vec!["f", "r", "u"]), Ok(()));
        let before = puzzle.current_state().entries();
        let applied: Vec<usize> = (0..60).map(|x| puzzle.applied_permutations().apply(x)).collect();
        let degree = puzzle.applied_permutations().degree();
        assert_eq!(puzzle.rotate(made), Ok(()));
        assert_ne!(puzzle.current_state().entries(), before);
        assert_eq!(puzzle.rotate(back), Ok(()));
        assert_eq!(puzzle.current_state().entries(), before);
        let after: Vec<usize> = (0..60).map(|x| puzzle.applied_permutations().apply(x)).collect();
        assert_eq!(applied, after);
        assert_eq!(degree, puzzle.applied_permutations().degree());
    }
    for (made, back) in [("f", "fi"), ("l", "li"), ("r", "ri"), ("d", "di")] {
        let mut puzzle = Polyhedron::create_polyhedron(TetrahedronInflated3x3Definition::new());
        assert_eq!(puzzle.rotate_many(vec!["d", "l"]), Ok(()));
        let before = puzzle.current_state().entries();
        assert_eq!(puzzle.rotate(made), Ok(()));
        assert_ne!(puzzle.current_state().entries(), before);
        assert_eq!(puzzle.rotate(back), Ok(()));
        assert_eq!(puzzle.current_state().entries(), before);
    }
}

#[test]
fn an_unknown_move_fails_for_every_variant() {
    let cube = Cube2x2Definition::new();
    assert_eq!(cube.get_permutation("nonexistent".to_string()).err(), Some(PuzzleError::UnknownMove));
    let tetrahedron = TetrahedronInflated3x3Definition::new();
    assert_eq!(
        tetrahedron.get_permutation("nonexistent".to_string()).err(),
        Some(PuzzleError::UnknownMove)
    );
    assert_eq!(tetrahedron.get_permutation("u".to_string()).err(), Some(PuzzleError::UnknownMove));

    let mut puzzle = Polyhedron::create_polyhedron(Cube2x2Definition::new());
    assert_eq!(puzzle.rotate("nonexistent"), Err(PuzzleError::UnknownMove));
    assert!(puzzle.is_solved());
    assert_eq!(puzzle.applied_label(), "id");
}

#[test]
fn every_registered_move_is_found() {
    let cube = Cube2x2Definition::new();
    for name in [
        "id", "f", "u", "r", "d", "l", "b", "fi", "li", "ui", "ri", "di", "bi", "a_tech_right",
        "b_tech_right", "a_left_left", "b_tech_left", "c_tech_right", "d_tech_right",
        "c_tech_left", "d_tech_left",
    ] {
        assert!(cube.get_permutation(name.to_string()).is_ok(), "{}", name);
    }
    assert_eq!(cube.get_permutation("u".to_string()).unwrap().print(), "u");
    assert_eq!(cube.get_permutation("ui".to_string()).unwrap().print(), "ui");
    assert_eq!(cube.get_permutation("a_tech_right".to_string()).unwrap().print(), "a_tech_right");
    assert_eq!(
        cube.get_permutation("a_tech_right".to_string()).unwrap().print_cycles(),
        "[[3, 23, 32, 33, 24, 54], [34, 53, 44]]"
    );
    assert!(cube.get_permutation("c_tech_left".to_string()).unwrap().is_identity());
    let tetrahedron = TetrahedronInflated3x3Definition::new();
    for name in ["id", "f", "l", "r", "d", "fi", "li", "ri", "di"] {
        assert!(tetrahedron.get_permutation(name.to_string()).is_ok(), "{}", name);
    }
    assert_eq!(
        tetrahedron.get_permutation("f".to_string()).unwrap().print_cycles(),
        "[[1, 6, 4], [2, 3, 5], [24, 34, 44], [25, 35, 45], [26, 36, 46]]"
    );
}

#[test]
fn rotate_many_keeps_the_moves_made_before_a_failure() {
    let mut puzzle = Polyhedron::create_polyhedron(Cube2x2Definition::new());
    assert_eq!(puzzle.rotate_many(vec!["f", "oops", "f"]), Err(PuzzleError::UnknownMove));
    assert_eq!(puzzle.applied_label(), "id * f");
    assert_eq!(puzzle.get_facelet(1), Some(4));

    let mut other = Polyhedron::create_polyhedron(Cube2x2Definition::new());
    assert_eq!(other.rotate("f"), Ok(()));
    assert_eq!(puzzle.current_state().entries(), other.current_state().entries());
    assert_eq!(puzzle.rotate_many(vec![]), Ok(()));
    assert_eq!(puzzle.applied_label(), "id * f");
}

#[test]
fn reset_goes_back_to_the_start() {
    let mut puzzle = Polyhedron::create_polyhedron(TetrahedronInflated3x3Definition::new());
    assert_eq!(puzzle.rotate_many(vec!["f", "l", "r", "d"]), Ok(()));
    assert!(!puzzle.is_solved());
    puzzle.reset();
    assert!(puzzle.is_solved());
    assert!(!puzzle.has_moved());
    assert_eq!(puzzle.applied_label(), "id");
    assert_eq!(puzzle.applied_permutations().degree(), 0);
}

#[test]
fn a_move_that_leaves_the_puzzle_is_a_definition_error() {
    let mut cube = Cube::create_cube();
    let stray = Permutation::create_permutation("stray".to_string(), vec![vec![1, 5]]).unwrap();
    assert_eq!(cube.rotate(stray), Err(PuzzleError::Definition));
    assert!(cube.is_solved());
    assert_eq!(cube.applied_label(), "id");

    let state = FaceletState::from_pairs(vec![(1, 10), (2, 20)]);
    let beyond = Permutation::create_permutation("beyond".to_string(), vec![vec![2, 3]]).unwrap();
    assert!(state.permuted(&beyond).is_none());
    let swap = Permutation::create_permutation("swap".to_string(), vec![vec![1, 2]]).unwrap();
    assert_eq!(state.permuted(&swap).unwrap().entries(), vec![(1, 20), (2, 10)]);
}

#[test]
fn faces_and_colours() {
    let cube = Cube2x2Definition::new();
    let names = ["f", "u", "r", "d", "l", "b"];
    let colours = [
        FaceColor::Red,
        FaceColor::Yellow,
        FaceColor::Green,
        FaceColor::White,
        FaceColor::Blue,
        FaceColor::Magenta,
    ];
    for face in 0..6 {
        assert_eq!(cube.get_face_name(face * 10 + 1), names[face]);
        assert_eq!(cube.get_color(names[face].to_string()), colours[face]);
        assert_eq!(cube.default_face_name(face * 10 + 9), names[face]);
        assert_eq!(cube.default_get_color(names[face].to_string()), colours[face]);
        assert_eq!(Cube::get_face_name(face * 10 + 4), names[face].to_uppercase());
        assert_eq!(Cube::get_color(face * 10 + 4), colours[face]);
    }
    assert_eq!(cube.get_color("x".to_string()), FaceColor::Grey0);
    assert_eq!(cube.get_color("".to_string()), FaceColor::Grey0);
    assert_eq!(cube.get_color("ff".to_string()), FaceColor::Grey0);

    let tetrahedron = TetrahedronInflated3x3Definition::new();
    assert_eq!(tetrahedron.get_color("f".to_string()), FaceColor::Red);
    assert_eq!(tetrahedron.get_color("r".to_string()), FaceColor::Green);
    assert_eq!(tetrahedron.get_color("d".to_string()), FaceColor::Yellow);
    assert_eq!(tetrahedron.get_color("l".to_string()), FaceColor::Blue);
    assert_eq!(tetrahedron.get_color("u".to_string()), FaceColor::Grey0);
    assert_eq!(tetrahedron.get_face_name(36), "d");

    let mut puzzle = Polyhedron::create_polyhedron(Cube2x2Definition::new());
    assert_eq!(puzzle.get_color(13), FaceColor::Yellow);
    assert_eq!(puzzle.get_face_name(13), "u");
    assert_eq!(puzzle.rotate("f"), Ok(()));
    assert_eq!(puzzle.get_facelet(13), Some(42));
    assert_eq!(puzzle.get_color(13), FaceColor::Blue);
    assert_eq!(puzzle.get_face_name(13), "l");
    assert!(puzzle.has_position(13));
    assert!(!puzzle.has_position(15));
}

#[test]
fn other_first_states_of_the_cube() {
    let diagonal = diagonal_fixed();
    assert_eq!(diagonal.len(), 24);
    assert_eq!(diagonal.positions(), cube_positions());
    for (position, facelet) in [(3, 32), (24, 3), (32, 24), (34, 53), (44, 34), (53, 44), (1, 1), (54, 54)] {
        assert_eq!(diagonal.get(position), Some(facelet));
    }
    let flipped = flipped_corners();
    assert_eq!(flipped.len(), 24);
    for (position, facelet) in [(3, 54), (23, 32), (24, 33), (32, 23), (33, 24), (54, 3), (4, 4)] {
        assert_eq!(flipped.get(position), Some(facelet));
    }
    assert!(!flipped.equals(&diagonal));
}

#[test]
fn facelet_state_keeps_the_last_pair_of_a_position() {
    let mut state = FaceletState::from_pairs(vec![(5, 50), (1, 10), (5, 55), (3, 30)]);
    assert_eq!(state.entries(), vec![(1, 10), (3, 30), (5, 55)]);
    assert_eq!(state.get(5), Some(55));
    assert_eq!(state.get(2), None);
    assert!(state.contains(3));
    assert!(!state.contains(4));
    state.insert(2, 20);
    state.insert(1, 11);
    assert_eq!(state.entries(), vec![(1, 11), (2, 20), (3, 30), (5, 55)]);
    assert_eq!(state.clone().entries(), state.entries());
    assert_eq!(FaceletState::new().len(), 0);
    state.add_face(7, 2);
    assert_eq!(state.positions(), vec![1, 2, 3, 5, 71, 72]);
}

#[test]
fn the_current_state_is_written_face_by_face() {
    let mut puzzle = Polyhedron::create_polyhedron(TetrahedronInflated3x3Definition::new());
    assert_eq!(puzzle.rotate("f"), Ok(()));
    let lines = puzzle.current_state_lines();
    assert_eq!(lines.len(), 1 + 4 + 24 + 1);
    assert_eq!(lines[0], "fn xxxxxxxxxxx() -> HashMap<usize, usize> { return HashMap::from([");
    assert_eq!(lines[1], "        // f");
    assert_eq!(lines[2], " (1, 6),");
    assert_eq!(lines[3], " (2, 3),");
    assert_eq!(lines[8], "        // r");
    assert_eq!(lines[9], " (21, 21),");
    assert_eq!(lines[12], " (24, 34),");
    assert_eq!(lines[29], "    ]); }");

    let cube = Cube::create_cube();
    let lines = cube.current_state_lines();
    assert_eq!(lines.len(), 1 + 6 + 24 + 1);
    assert_eq!(lines[0], "let solved_state: HashMap<usize, usize> = HashMap::from([");
    assert_eq!(lines[1], "        // F");
    assert_eq!(lines[2], " (1, 1),");
    assert_eq!(lines[6], "        // U");
    assert_eq!(lines[7], " (11, 11),");
    assert_eq!(lines[31], "]);");
}

#[test]
fn the_moves_made_so_far_turn_the_first_state_into_the_current_one() {
    let mut puzzle = Polyhedron::create_polyhedron(Cube2x2Definition::new());
    assert_eq!(puzzle.rotate_many(vec!["f", "r", "ui", "a_tech_right", "b"]), Ok(()));
    let start = Cube2x2Definition::new().start_state();
    for position in cube_positions() {
        let source = puzzle.applied_permutations().apply(position);
        assert_eq!(puzzle.get_facelet(position), start.get(source));
    }
    let composite = puzzle.applied_permutations().clone();
    let mut cube = Cube::create_cube();
    assert_eq!(cube.rotate(composite), Ok(()));
    for position in cube_positions() {
        assert_eq!(cube.get_facelet(position), puzzle.get_facelet(position));
    }
}
