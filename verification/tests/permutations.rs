use polyhedron::conversions::{
    are_disjoint_cycles, convert_cycles_to_one_line, convert_one_line_to_cycles,
};
use polyhedron::errors::ConstructionError;
use polyhedron::permutations::{
    compose, compose_2, compose_3, compose_4, compose_5, compose_6, compose_7, compose_8,
    compose_9, compose_n, internal_degree, is_identity, is_one_line, Permutation,
};
use polyhedron::text::{write_decimal, write_lists, write_numbers};
use polyhedron::utils::next_false;

fn f_one_line() -> Vec<usize> {
    vec![
        0, 4, 1, 2, 3, 5, 6, 7, 8, 9, 10, 11, 12, 42, 43, 15, 16, 17, 18, 19, 20, 14, 22, 23, 13,
        25, 26, 27, 28, 29, 30, 24, 21, 33, 34, 35, 36, 37, 38, 39, 40, 41, 31, 32,
    ]
}

fn b_one_line() -> Vec<usize> {
    vec![
        0, 1, 2, 3, 4, 5, 6, 7, 8, 9, 10, 22, 23, 13, 14, 15, 16, 17, 18, 19, 20, 21, 33, 34, 24,
        25, 26, 27, 28, 29, 30, 31, 32, 44, 41, 35, 36, 37, 38, 39, 40, 12, 42, 43, 11, 45, 46, 47,
        48, 49, 50, 54, 51, 52, 53,
    ]
}

fn cycles(name: &str, cycles: Vec<Vec<usize>>) -> Permutation {
    Permutation::create_permutation(name.to_string(), cycles).unwrap()
}

fn f() -> Permutation {
    cycles("f", vec![vec![1, 4, 3, 2], vec![13, 42, 31, 24], vec![14, 43, 32, 21]])
}

fn l() -> Permutation {
    cycles("l", vec![vec![1, 11, 53, 31], vec![4, 14, 52, 34], vec![41, 44, 43, 42]])
}

fn u() -> Permutation {
    cycles("u", vec![vec![1, 21, 51, 41], vec![2, 22, 52, 42], vec![11, 14, 13, 12]])
}

fn r() -> Permutation {
    cycles("r", vec![vec![2, 32, 54, 12], vec![3, 33, 51, 13], vec![21, 24, 23, 22]])
}

fn d() -> Permutation {
    cycles("d", vec![vec![3, 43, 53, 23], vec![4, 44, 54, 24], vec![31, 34, 33, 32]])
}

fn b() -> Permutation {
    cycles("b", vec![vec![11, 22, 33, 44], vec![12, 23, 34, 41], vec![51, 54, 53, 52]])
}

#[test]
fn to_one_line() {
    let id_one_line: Vec<usize> = vec![];
    let id_cycles: Vec<Vec<usize>> = vec![];

    let f_cycles = vec![vec![1, 4, 3, 2], vec![13, 42, 31, 24], vec![14, 43, 32, 21]];
    let b_cycles = vec![vec![11, 22, 33, 44], vec![12, 23, 34, 41], vec![51, 54, 53, 52]];

    assert_eq!(convert_cycles_to_one_line(&id_cycles).unwrap(), id_one_line);
    assert_eq!(convert_cycles_to_one_line(&vec![vec![]]).unwrap(), id_one_line);
    assert_eq!(convert_cycles_to_one_line(&vec![vec![], vec![]]).unwrap(), id_one_line);

    assert_eq!(convert_cycles_to_one_line(&f_cycles).unwrap(), f_one_line());
    assert_eq!(convert_cycles_to_one_line(&b_cycles).unwrap(), b_one_line());
}

#[test]
fn one_line_to_cycles() {
    let id_one_line: Vec<usize> = vec![];
    let id_cycles: Vec<Vec<usize>> = vec![];

    let f_cycles = vec![vec![1, 4, 3, 2], vec![13, 42, 31, 24], vec![14, 43, 32, 21]];
    let b_cycles = vec![vec![11, 22, 33, 44], vec![12, 23, 34, 41], vec![51, 54, 53, 52]];

    assert_eq!(convert_one_line_to_cycles(&id_one_line), id_cycles);
    assert_eq!(convert_one_line_to_cycles(&f_one_line()), f_cycles);
    assert_eq!(convert_one_line_to_cycles(&b_one_line()), b_cycles);
}

#[test]
fn test_identity() {
    let id_one_line = vec![];

    assert!(is_identity(&id_one_line));
    assert!(!is_identity(&f_one_line()));
    assert!(!is_identity(&b_one_line()));
}

#[test]
fn test_internal_degree() {
    let id_one_line = vec![];

    assert_eq!(internal_degree(&id_one_line), 0);
    assert_eq!(internal_degree(&f_one_line()), 44);
    assert_eq!(internal_degree(&b_one_line()), 55);
}

#[test]
fn to_string_cycles() {
    let id: Permutation = Permutation::identity();
    let f = f();
    let l = l();
    let u = u();
    let r = r();
    let d = d();
    let b = b();

    assert_eq!("[]".to_string(), id.print_cycles());
    assert_eq!("[[1, 4, 3, 2], [13, 42, 31, 24], [14, 43, 32, 21]]".to_string(), f.print_cycles());
    assert_eq!("[[1, 11, 53, 31], [4, 14, 52, 34], [41, 44, 43, 42]]".to_string(), l.print_cycles());
    assert_eq!("[[1, 21, 51, 41], [2, 22, 52, 42], [11, 14, 13, 12]]".to_string(), u.print_cycles());
    assert_eq!("[[2, 32, 54, 12], [3, 33, 51, 13], [21, 24, 23, 22]]".to_string(), r.print_cycles());
    assert_eq!("[[3, 43, 53, 23], [4, 44, 54, 24], [31, 34, 33, 32]]".to_string(), d.print_cycles());
    assert_eq!("[[11, 22, 33, 44], [12, 23, 34, 41], [51, 54, 53, 52]]".to_string(), b.print_cycles());

    let idi: Permutation = id.inverse();
    let fi: Permutation = f.inverse();
    let li: Permutation = l.inverse();
    let ui: Permutation = u.inverse();
    let ri: Permutation = r.inverse();
    let di: Permutation = d.inverse();
    let bi: Permutation = b.inverse();

    assert_eq!("[]".to_string(), idi.print_cycles());
    assert_eq!("[[1, 2, 3, 4], [13, 24, 31, 42], [14, 21, 32, 43]]".to_string(), fi.print_cycles());
    assert_eq!("[[1, 31, 53, 11], [4, 34, 52, 14], [41, 42, 43, 44]]".to_string(), li.print_cycles());
    assert_eq!("[[1, 41, 51, 21], [2, 42, 52, 22], [11, 12, 13, 14]]".to_string(), ui.print_cycles());
    assert_eq!("[[2, 12, 54, 32], [3, 13, 51, 33], [21, 22, 23, 24]]".to_string(), ri.print_cycles());
    assert_eq!("[[3, 23, 53, 43], [4, 24, 54, 44], [31, 32, 33, 34]]".to_string(), di.print_cycles());
    assert_eq!("[[11, 44, 33, 22], [12, 41, 34, 23], [51, 52, 53, 54]]".to_string(), bi.print_cycles());
}

#[test]
fn test_compose() {
    let id: Permutation = cycles("id", vec![]);
    let f = f();
    let l = l();
    let b = b();

    let id_id = compose(&id, &id);
    assert_eq!(id_id, Permutation::create_permutation_one_line("id * id".to_string(), vec![]));
    assert_eq!(id_id.print(), "id * id".to_string());
    assert_eq!(id_id.one_line(), &Vec::<usize>::new());
    assert!(id_id.is_identity());
    assert_eq!(id_id.degree(), 0);

    assert_eq!(
        compose(&f, &l),
        cycles(
            "f * l",
            vec![vec![1, 11, 53, 24, 13, 42, 41, 44, 32, 21, 14, 52, 34, 3, 2], vec![4, 43, 31]]
        )
    );

    // f and b are disjoint, so the result should be the union of both
    assert_eq!(
        compose(&f, &b),
        cycles(
            "f * b",
            vec![
                vec![1, 4, 3, 2],
                vec![11, 22, 33, 44],
                vec![12, 23, 34, 41],
                vec![13, 42, 31, 24],
                vec![14, 43, 32, 21],
                vec![51, 54, 53, 52]
            ]
        )
    );
}

#[test]
fn test_compose_3() {
    let f = f();
    let l = l();
    let b = b();

    assert_eq!(
        compose_3(&f, &b, &l),
        cycles(
            "f * b * l",
            vec![
                vec![1, 22, 33, 44, 32, 21, 14, 51, 54, 53, 24, 13, 42, 12, 23, 34, 3, 2],
                vec![4, 43, 31],
                vec![11, 52, 41]
            ]
        )
    );
}

#[test]
fn test_a_tech() {
    let f = f();
    let r = r();
    let d = d();

    let fi: Permutation = f.inverse();
    let ri: Permutation = r.inverse();
    let di: Permutation = d.inverse();

    let a_tech = compose_7(&f, &di, &fi, &di, &ri, &d, &r);

    assert_eq!(
        a_tech,
        cycles(
            "f * di * fi * di * ri * d * r",
            vec![vec![3, 23, 32, 33, 24, 54], vec![34, 53, 44]]
        )
    );
}

#[test]
fn test_compose_n() {
    let f = f();
    let l = l();
    let b = b();

    assert_eq!(
        compose_n(vec![&f, &b, &l, &f, &b, &l, &f]),
        cycles(
            "f * b * l * f * b * l * f",
            vec![
                vec![1, 31, 42, 43, 14, 4],
                vec![2, 33, 32, 51, 53, 13, 23, 3, 22, 44, 21, 54, 24, 12, 34],
                vec![11, 41, 52]
            ]
        )
    )
}

#[test]
fn test_conjugate() {
    let f = f();
    let l = l();

    assert_eq!(
        f.conjugate(&l),
        cycles(
            "f * l * fi",
            vec![vec![3, 43, 52, 34], vec![4, 11, 53, 24], vec![31, 41, 44, 32]]
        )
    )
}

#[test]
fn test_to_string_one_line() {
    let id: Permutation = cycles("id", vec![]);
    let f = f();
    let l = l();
    let b = b();

    assert_eq!(id.print_one_line(), "[]".to_string());
    assert_eq!(
        f.print_one_line(),
        "[0, 4, 1, 2, 3, 5, 6, 7, 8, 9, 10, 11, 12, 42, 43, 15, 16, 17, 18, 19, 20, 14, 22, \
                   23, 13, 25, 26, 27, 28, 29, 30, 24, 21, 33, 34, 35, 36, 37, 38, 39, 40, 41, 31, 32]"
            .to_string()
    );
    assert_eq!(
        l.print_one_line(),
        "[0, 11, 2, 3, 14, 5, 6, 7, 8, 9, 10, 53, 12, 13, 52, 15, 16, 17, 18, 19, 20, 21, 22, \
                   23, 24, 25, 26, 27, 28, 29, 30, 1, 32, 33, 4, 35, 36, 37, 38, 39, 40, 44, 41, 42, 43, \
                   45, 46, 47, 48, 49, 50, 51, 34, 31]"
            .to_string()
    );
    assert_eq!(
        b.print_one_line(),
        "[0, 1, 2, 3, 4, 5, 6, 7, 8, 9, 10, 22, 23, 13, 14, 15, 16, 17, 18, 19, 20, 21, 33, \
                   34, 24, 25, 26, 27, 28, 29, 30, 31, 32, 44, 41, 35, 36, 37, 38, 39, 40, 12, 42, 43, \
                   11, 45, 46, 47, 48, 49, 50, 54, 51, 52, 53]"
            .to_string()
    );
}

#[test]
fn a_cycle_of_one_entry_is_refused() {
    assert_eq!(convert_cycles_to_one_line(&vec![vec![3]]), Err(ConstructionError { cycle: 0 }));
    assert_eq!(convert_cycles_to_one_line(&vec![vec![0]]), Err(ConstructionError { cycle: 0 }));
    assert_eq!(
        convert_cycles_to_one_line(&vec![vec![1, 2], vec![], vec![7], vec![9]]),
        Err(ConstructionError { cycle: 2 })
    );
    assert_eq!(
        Permutation::create_permutation("x".to_string(), vec![vec![4, 5], vec![6]]).err(),
        Some(ConstructionError { cycle: 1 })
    );
    assert_eq!(convert_cycles_to_one_line(&vec![vec![], vec![0, 2]]), Ok(vec![2, 1, 0]));
}

#[test]
fn cycles_and_back_give_the_array_up_to_the_degree() {
    let with_tail = vec![0, 3, 2, 1, 4, 5];
    let p = Permutation::create_permutation_one_line("p".to_string(), with_tail);
    assert_eq!(p.degree(), 4);
    let cycles = p.to_cycles();
    assert_eq!(cycles, vec![vec![1, 3]]);
    let back = Permutation::create_permutation("p".to_string(), cycles).unwrap();
    assert_eq!(back.one_line(), &vec![0, 3, 2, 1]);
    assert_eq!(back.degree(), 4);
    for q in [f(), l(), u(), r(), d(), b(), compose(&f(), &l())] {
        let again = Permutation::create_permutation(q.print(), q.to_cycles()).unwrap();
        assert_eq!(again.one_line()[..], q.one_line()[..q.degree()]);
        assert_eq!(again, q);
    }
}

#[test]
fn a_permutation_and_its_inverse_compose_to_the_identity() {
    for p in [f(), l(), b(), compose_3(&f(), &b(), &l()), Permutation::identity()] {
        for composite in [compose(&p, &p.inverse()), compose(&p.inverse(), &p)] {
            assert_eq!(composite.degree(), 0);
            assert!(composite.is_identity());
            for x in 0..70 {
                assert_eq!(composite.apply(x), x);
            }
        }
    }
    let fi = f().inverse();
    assert_eq!(fi.print(), "fi");
    assert_eq!(fi.inverse().print(), "fii");
    assert_eq!(fi.inverse().one_line(), f().one_line());
    let id = Permutation::create_permutation_one_line("e".to_string(), vec![0, 1, 2]);
    assert_eq!(id.inverse().print(), "e");
    assert_eq!(id.inverse().one_line(), &Vec::<usize>::new());
}

#[test]
fn composition_is_associative() {
    let (f, l, b) = (f(), l(), b());
    let left = compose(&compose(&f, &l), &b);
    let right = compose(&f, &compose(&l, &b));
    assert_eq!(left, right);
    assert_eq!(left.print(), "f * l * b");

    let swap = Permutation::create_permutation("s".to_string(), vec![vec![0, 1]]).unwrap();
    let id = Permutation::identity();
    let left = compose(&compose(&swap, &swap), &id);
    let right = compose(&swap, &compose(&swap, &id));
    assert_eq!(left.print(), right.print());
    assert_eq!(left.degree(), right.degree());
    assert_eq!(left.is_identity(), right.is_identity());
    assert_eq!(left.one_line(), &Vec::<usize>::new());
    assert_eq!(right.one_line(), &vec![0, 1]);
    assert_ne!(left, right);
}

#[test]
fn composition_applies_the_second_to_the_index_and_the_first_to_its_image() {
    let p = Permutation::create_permutation_one_line("p".to_string(), vec![1, 2, 0]);
    let q = Permutation::create_permutation_one_line("q".to_string(), vec![0, 2, 1, 4, 3]);
    let pq = compose(&p, &q);
    assert_eq!(pq.one_line(), &vec![1, 0, 2, 4, 3]);
    assert_eq!(pq.degree(), 5);
    for i in 0..8 {
        assert_eq!(pq.apply(i), p.apply(q.apply(i)));
        assert_eq!(p.compose(&q).apply(i), pq.apply(i));
    }
    assert_eq!(p.apply(2), 0);
    assert_eq!(p.apply(3), 3);
    assert_eq!(p.apply(1000), 1000);
}

#[test]
fn disjoint_supports_give_the_union_of_the_cycles() {
    let (f, b) = (f(), b());
    let mut expected = f.to_cycles();
    expected.extend(b.to_cycles());
    expected.sort();
    let mut got = compose(&f, &b).to_cycles();
    got.sort();
    assert_eq!(got, expected);
    assert_eq!(compose(&b, &f).to_cycles(), compose(&f, &b).to_cycles());
}

#[test]
fn compose_n_of_none_and_of_one() {
    let none = compose_n(vec![]);
    assert_eq!(none, Permutation::identity());
    assert_eq!(none.print(), "id");
    let f = f();
    assert_eq!(compose_n(vec![&f]), f);
    let named = Permutation::create_permutation_from_composition("twice".to_string(), vec![&f, &f]);
    assert_eq!(named.print(), "twice");
    assert_eq!(named.one_line(), compose(&f, &f).one_line());
    let empty = Permutation::create_permutation_from_composition("none".to_string(), vec![]);
    assert_eq!(empty.print(), "none");
    assert!(empty.is_identity());
}

#[test]
fn compose_by_number_agrees_with_compose_n() {
    let (f, l, u, r, d, b) = (f(), l(), u(), r(), d(), b());
    assert_eq!(compose_2(&f, &l), compose_n(vec![&f, &l]));
    assert_eq!(compose_4(&f, &l, &u, &r), compose_n(vec![&f, &l, &u, &r]));
    assert_eq!(compose_5(&f, &l, &u, &r, &d), compose_n(vec![&f, &l, &u, &r, &d]));
    assert_eq!(compose_6(&f, &l, &u, &r, &d, &b), compose_n(vec![&f, &l, &u, &r, &d, &b]));
    assert_eq!(
        compose_8(&f, &l, &u, &r, &d, &b, &f, &l),
        compose_n(vec![&f, &l, &u, &r, &d, &b, &f, &l])
    );
    assert_eq!(
        compose_9(&f, &l, &u, &r, &d, &b, &f, &l, &u),
        compose_n(vec![&f, &l, &u, &r, &d, &b, &f, &l, &u])
    );
}

#[test]
fn commutator_is_rhs_self_and_their_inverses() {
    let (f, l) = (f(), l());
    let c = f.commutator(&l);
    assert_eq!(c.print(), "l * f * li * fi");
    assert_eq!(c, compose_n(vec![&l, &f, &l.inverse(), &f.inverse()]));
    assert!(f.commutator(&b()).is_identity());
}

#[test]
fn next_false_finds_the_first_false_from_the_start() {
    let table = vec![true, false, true, false];
    assert_eq!(next_false(&table, 0), Some(1));
    assert_eq!(next_false(&table, 1), Some(1));
    assert_eq!(next_false(&table, 2), Some(3));
    assert_eq!(next_false(&table, 4), None);
    assert_eq!(next_false(&table, 9), None);
    assert_eq!(next_false(&vec![true, true], 0), None);
    assert_eq!(next_false(&vec![], 0), None);
}

#[test]
fn numbers_are_written_in_decimal() {
    assert_eq!(write_decimal(0), "0");
    assert_eq!(write_decimal(7), "7");
    assert_eq!(write_decimal(10), "10");
    assert_eq!(write_decimal(1234567890), "1234567890");
    assert_eq!(write_decimal(usize::MAX), usize::MAX.to_string());
    assert_eq!(write_numbers(&vec![]), "[]");
    assert_eq!(write_numbers(&vec![5]), "[5]");
    assert_eq!(write_numbers(&vec![5, 60, 700]), "[5, 60, 700]");
    assert_eq!(write_lists(&vec![]), "[]");
    assert_eq!(write_lists(&vec![vec![]]), "[[]]");
    assert_eq!(write_lists(&vec![vec![1, 2], vec![], vec![30]]), "[[1, 2], [], [30]]");
}

#[test]
fn arrays_and_cycles_are_told_from_what_is_none() {
    assert!(is_one_line(&vec![]));
    assert!(is_one_line(&vec![0]));
    assert!(is_one_line(&vec![2, 0, 1]));
    assert!(is_one_line(&f_one_line()));
    assert!(!is_one_line(&vec![1]));
    assert!(!is_one_line(&vec![0, 0]));
    assert!(!is_one_line(&vec![1, 2, 3]));
    assert!(!is_one_line(&vec![0, 2, 2]));

    assert!(are_disjoint_cycles(&vec![]));
    assert!(are_disjoint_cycles(&vec![vec![], vec![3]]));
    assert!(are_disjoint_cycles(&vec![vec![1, 4, 3, 2], vec![13, 42, 31, 24]]));
    assert!(!are_disjoint_cycles(&vec![vec![1, 1]]));
    assert!(!are_disjoint_cycles(&vec![vec![1, 2], vec![3, 1]]));
    assert!(!are_disjoint_cycles(&vec![vec![0, usize::MAX]]));
}

#[test]
fn a_copy_is_equal_and_another_label_is_not() {
    let f = f();
    let copy = f.clone();
    assert_eq!(copy, f);
    assert!(copy.equals(&f));
    let other = Permutation::create_permutation_one_line("g".to_string(), f_one_line());
    assert_ne!(other, f);
    assert_eq!(other.one_line(), f.one_line());
}
