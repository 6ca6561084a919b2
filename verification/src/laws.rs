//! Laws of the permutation algebra and of the turning of a puzzle, proved of
//! the mathematical values that the operations are specified by.

use crate::cycles::{
    cycles_bound, cycles_to_one_line, disjoint_cycles, has_degenerate_cycle,
    is_cycle_decomposition, is_orbit, lemma_cycles_bound_unique, lemma_orbit_entry_moved,
    lemma_orbit_meets, lemma_successor, next_index, occurs, stands_at,
};
use crate::facelets::{lemma_turn_by_composite, rotation, turnable};
use crate::one_line::{
    compose_spec, degree_of, image, inverse_spec, is_bijection, is_identity_array, larger,
    lemma_compose, lemma_degree_of, lemma_degree_unique, lemma_image_bijective,
    lemma_image_is_entry, lemma_inverse, lemma_same_action, moves, same_action,
};
use crate::permutations::PermutationView;
use crate::puzzle::PolyhedronView;
use vstd::prelude::*;
use vstd::relations::injective_on;
use vstd::set_lib::{lemma_map_size, lemma_subset_equality};

verus! {

/// An array whose action fixes every integer has degree 0.
pub proof fn lemma_fixes_all(a: Seq<usize>)
    requires
        forall|x: int| #[trigger] image(a, x) == x,
    ensures
        degree_of(a) == 0,
        is_identity_array(a),
{
    lemma_degree_of(a);
    let d = degree_of(a);
    if d > 0 {
        assert(image(a, d - 1) == d - 1);
    }
}

/// A permutation composed with its inverse, on either side, is the identity:
/// the composite has degree 0, is flagged as the identity and sends every
/// integer to itself.
pub proof fn law_compose_with_inverse(p: PermutationView)
    requires
        p.wf(),
    ensures
        p.compose(p.inverse()).wf(),
        p.compose(p.inverse()).degree == 0,
        p.compose(p.inverse()).is_identity,
        forall|x: int| #[trigger] p.compose(p.inverse()).image(x) == x,
        p.inverse().compose(p).wf(),
        p.inverse().compose(p).degree == 0,
        p.inverse().compose(p).is_identity,
        forall|x: int| #[trigger] p.inverse().compose(p).image(x) == x,
{
    let a = p.one_line;
    let inv = p.inverse().one_line;
    lemma_degree_of(a);
    if p.is_identity {
        assert(inv.len() == 0);
        assert(is_bijection(inv));
        lemma_degree_of(inv);
        assert forall|x: int| #[trigger] image(inv, x) == x by {}
        assert forall|x: int| #[trigger] image(a, x) == x by {}
    } else {
        lemma_inverse(a);
    }
    lemma_compose(a, inv);
    lemma_compose(inv, a);
    let left = compose_spec(a, inv);
    let right = compose_spec(inv, a);
    assert forall|x: int| #[trigger] image(left, x) == x by {
        assert(image(left, x) == image(a, image(inv, x)));
    }
    assert forall|x: int| #[trigger] image(right, x) == x by {
        assert(image(right, x) == image(inv, image(a, x)));
    }
    lemma_fixes_all(left);
    lemma_fixes_all(right);
}

/// Composition is associative. However the three are bracketed, the
/// composite has the same label, sends every integer to the same place, and
/// has the same degree and identity flag; the two arrays agree below that
/// degree. They are the same array, and the two composites equal, exactly when
/// both bracketings give an array of the same length.
pub proof fn law_compose_associative(a: PermutationView, b: PermutationView, c: PermutationView)
    requires
        a.wf(),
        b.wf(),
        c.wf(),
    ensures
        a.compose(b).compose(c).wf(),
        a.compose(b.compose(c)).wf(),
        a.compose(b).compose(c).label == a.compose(b.compose(c)).label,
        forall|x: int| #[trigger] a.compose(b).compose(c).image(x) == a.image(b.image(c.image(x))),
        forall|x: int| #[trigger] a.compose(b.compose(c)).image(x) == a.image(b.image(c.image(x))),
        a.compose(b).compose(c).degree == a.compose(b.compose(c)).degree,
        a.compose(b).compose(c).is_identity == a.compose(b.compose(c)).is_identity,
        a.compose(b).compose(c).one_line.take(a.compose(b).compose(c).degree as int) == a.compose(
            b.compose(c),
        ).one_line.take(a.compose(b.compose(c)).degree as int),
        a.compose(b).compose(c) == a.compose(b.compose(c)) <==> larger(
            a.compose(b).degree,
            c.degree,
        ) == larger(a.degree, b.compose(c).degree),
{
    let ab = compose_spec(a.one_line, b.one_line);
    let bc = compose_spec(b.one_line, c.one_line);
    let left = compose_spec(ab, c.one_line);
    let right = compose_spec(a.one_line, bc);
    lemma_compose(a.one_line, b.one_line);
    lemma_compose(b.one_line, c.one_line);
    lemma_compose(ab, c.one_line);
    lemma_compose(a.one_line, bc);
    assert forall|x: int| #[trigger] image(left, x) == image(
        a.one_line,
        image(b.one_line, image(c.one_line, x)),
    ) by {
        assert(image(left, x) == image(ab, image(c.one_line, x)));
    }
    assert forall|x: int| #[trigger] image(right, x) == image(
        a.one_line,
        image(b.one_line, image(c.one_line, x)),
    ) by {
        assert(image(right, x) == image(a.one_line, image(bc, x)));
    }
    assert(same_action(left, right)) by {
        assert forall|x: int| #[trigger] image(left, x) == image(right, x) by {}
    }
    lemma_same_action(left, right);
    assert(a.compose(b).compose(c).label =~= a.compose(b.compose(c)).label);
    lemma_degree_of(left);
    lemma_degree_of(right);
    if left.len() == right.len() {
        assert forall|i: int| 0 <= i < left.len() implies left[i] == right[i] by {
            lemma_image_is_entry(left, i);
            lemma_image_is_entry(right, i);
        }
        assert(left =~= right);
    }
}

/// Writing a permutation in cycle notation and reading the cycles back gives
/// its one-line array again, cut off at its degree. The cycles are disjoint,
/// none has one entry only, and they reach as far as the degree.
pub proof fn law_cycles_round_trip(a: Seq<usize>, cycles: Seq<Seq<usize>>)
    requires
        is_bijection(a),
        is_cycle_decomposition(a, cycles),
    ensures
        disjoint_cycles(cycles),
        !has_degenerate_cycle(cycles),
        cycles_bound(cycles) == degree_of(a),
        cycles_to_one_line(cycles) == a.take(degree_of(a) as int),
        degree_of(cycles_to_one_line(cycles)) == degree_of(a),
{
    lemma_degree_of(a);
    let d = degree_of(a);
    assert forall|c: int, k: int| 0 <= c < cycles.len() && 0 <= k < cycles[c].len() implies (
    #[trigger] cycles[c][k]) < d by {
        lemma_orbit_entry_moved(a, cycles, c, k);
    }
    if d > 0 {
        let top = (d - 1) as usize;
        assert(occurs(cycles, top));
        let (c, k) = choose|c: int, k: int| stands_at(cycles, c, k, top);
        assert(cycles[c][k] == d - 1);
    }
    lemma_cycles_bound_unique(cycles, d);
    let back = cycles_to_one_line(cycles);
    assert forall|i: int| 0 <= i < d implies back[i] == a[i] by {
        let x = i as usize;
        if occurs(cycles, x) {
            let (c, k) = choose|c: int, k: int| stands_at(cycles, c, k, x);
            lemma_successor(cycles, c, k, x);
            assert(is_orbit(a, cycles[c]));
            assert(a[cycles[c][k] as int] == cycles[c][next_index(cycles[c].len(), k)]);
        }
    }
    assert(back =~= a.take(d as int));
    if d > 0 {
        assert(back[d - 1] == a[d - 1]);
    }
    lemma_degree_unique(back, d);
}

/// The supports of `a` and `b` have no position in common.
pub open spec fn disjoint_supports(a: Seq<usize>, b: Seq<usize>) -> bool {
    forall|x: int| !(#[trigger] moves(a, x) && #[trigger] moves(b, x))
}

/// The composite of two bijections with disjoint supports acts as each of
/// them on its support and fixes the rest.
proof fn lemma_disjoint_action(a: Seq<usize>, b: Seq<usize>, x: int)
    requires
        is_bijection(a),
        is_bijection(b),
        disjoint_supports(a, b),
    ensures
        image(compose_spec(a, b), x) == (if moves(a, x) {
            image(a, x)
        } else {
            image(b, x)
        }),
        moves(a, x) ==> moves(a, image(a, x)),
        moves(b, x) ==> moves(b, image(b, x)),
{
    lemma_compose(a, b);
    lemma_image_bijective(a);
    lemma_image_bijective(b);
    assert(!(moves(a, x) && moves(b, x)));
    let y = image(b, x);
    assert(!(moves(a, y) && moves(b, y)));
    if moves(b, x) {
        assert(moves(b, y)) by {
            if image(b, y) == y {
                assert(image(b, y) == image(b, x));
            }
        }
    }
    if moves(a, x) {
        let z = image(a, x);
        if image(a, z) == z {
            assert(image(a, z) == image(a, x));
        }
    }
}

/// An orbit of `source`, all of whose entries `source` moves, is an orbit of
/// any array that agrees with `source` on those entries.
proof fn lemma_orbit_carries_over(source: Seq<usize>, target: Seq<usize>, cycle: Seq<usize>)
    requires
        is_orbit(source, cycle),
        forall|k: int|
            0 <= k < cycle.len() ==> (#[trigger] cycle[k]) < target.len() && target[cycle[k] as int]
                == source[cycle[k] as int],
    ensures
        is_orbit(target, cycle),
{
    assert forall|k: int| 0 <= k < cycle.len() implies #[trigger] target[cycle[k] as int]
        == cycle[next_index(cycle.len(), k)] by {
        assert(cycle[k] < target.len());
        assert(source[cycle[k] as int] == cycle[next_index(cycle.len(), k)]);
    }
}

/// Every entry of an orbit of the composite that starts in the support of `a`
/// lies in the support of `a`.
proof fn lemma_orbit_stays_in_support(a: Seq<usize>, b: Seq<usize>, cycle: Seq<usize>, k: nat)
    requires
        is_bijection(a),
        is_bijection(b),
        disjoint_supports(a, b),
        is_orbit(compose_spec(a, b), cycle),
        moves(a, cycle[0] as int),
        k < cycle.len(),
    ensures
        moves(a, cycle[k as int] as int),
    decreases k,
{
    if k > 0 {
        let j = (k - 1) as int;
        lemma_orbit_stays_in_support(a, b, cycle, j as nat);
        let ab = compose_spec(a, b);
        lemma_disjoint_action(a, b, cycle[j] as int);
        lemma_image_is_entry(ab, cycle[j] as int);
        assert(ab[cycle[j] as int] == cycle[next_index(cycle.len(), j)]);
    }
}

/// An orbit of the composite that starts in the support of `a` is an orbit of
/// `a`.
proof fn lemma_orbit_of_factor(a: Seq<usize>, b: Seq<usize>, cycle: Seq<usize>)
    requires
        is_bijection(a),
        is_bijection(b),
        disjoint_supports(a, b),
        is_orbit(compose_spec(a, b), cycle),
        moves(a, cycle[0] as int),
    ensures
        is_orbit(a, cycle),
{
    let ab = compose_spec(a, b);
    lemma_degree_of(a);
    assert forall|k: int| 0 <= k < cycle.len() implies (#[trigger] cycle[k]) < a.len()
        && a[cycle[k] as int] == ab[cycle[k] as int] by {
        lemma_orbit_stays_in_support(a, b, cycle, k as nat);
        lemma_disjoint_action(a, b, cycle[k] as int);
        lemma_image_is_entry(ab, cycle[k] as int);
    }
    lemma_orbit_carries_over(ab, a, cycle);
}

/// A cycle of the cycle notation of `a` is an orbit of the composite of `a`
/// with a permutation of disjoint support, on either side.
proof fn lemma_orbit_of_composite(
    a: Seq<usize>,
    b: Seq<usize>,
    composite: Seq<usize>,
    cycles: Seq<Seq<usize>>,
    c: int,
)
    requires
        is_bijection(a),
        is_bijection(b),
        is_bijection(composite),
        forall|x: int| moves(a, x) ==> #[trigger] image(composite, x) == image(a, x),
        is_cycle_decomposition(a, cycles),
        0 <= c < cycles.len(),
    ensures
        is_orbit(composite, cycles[c]),
{
    let cycle = cycles[c];
    lemma_degree_of(a);
    lemma_degree_of(composite);
    assert forall|k: int| 0 <= k < cycle.len() implies (#[trigger] cycle[k]) < composite.len()
        && composite[cycle[k] as int] == a[cycle[k] as int] by {
        lemma_orbit_entry_moved(a, cycles, c, k);
        let x = cycle[k] as int;
        assert(image(composite, x) == image(a, x));
        assert(image(composite, x) != x);
    }
    lemma_orbit_carries_over(a, composite, cycle);
}

/// Where two permutations have disjoint supports, the cycles of their
/// composite are the cycles of the one together with the cycles of the other.
pub proof fn law_disjoint_cycles_union(
    a: Seq<usize>,
    b: Seq<usize>,
    cycles_a: Seq<Seq<usize>>,
    cycles_b: Seq<Seq<usize>>,
    cycles_ab: Seq<Seq<usize>>,
)
    requires
        is_bijection(a),
        is_bijection(b),
        disjoint_supports(a, b),
        is_cycle_decomposition(a, cycles_a),
        is_cycle_decomposition(b, cycles_b),
        is_cycle_decomposition(compose_spec(a, b), cycles_ab),
    ensures
        cycles_ab.to_set() == cycles_a.to_set().union(cycles_b.to_set()),
{
    let ab = compose_spec(a, b);
    let ba = compose_spec(b, a);
    lemma_compose(a, b);
    lemma_compose(b, a);
    lemma_degree_of(ab);
    assert(disjoint_supports(b, a));
    assert forall|x: int| moves(a, x) implies #[trigger] image(ab, x) == image(a, x) by {
        lemma_disjoint_action(a, b, x);
    }
    assert forall|x: int| moves(b, x) implies #[trigger] image(ab, x) == image(b, x) by {
        lemma_disjoint_action(a, b, x);
    }
    assert forall|x: int| #[trigger] image(ab, x) == image(ba, x) by {
        lemma_disjoint_action(a, b, x);
        lemma_disjoint_action(b, a, x);
    }
    assert(same_action(ab, ba));
    lemma_same_action(ab, ba);
    assert forall|cycle: Seq<usize>| #[trigger]
        cycles_ab.to_set().contains(cycle) implies cycles_a.to_set().union(
        cycles_b.to_set(),
    ).contains(cycle) by {
        let c = choose|c: int| 0 <= c < cycles_ab.len() && cycles_ab[c] == cycle;
        lemma_orbit_entry_moved(ab, cycles_ab, c, 0);
        let start = cycle[0];
        lemma_disjoint_action(a, b, start as int);
        if moves(a, start as int) {
            lemma_orbit_of_factor(a, b, cycle);
            lemma_orbit_meets(a, cycles_a, cycle);
        } else {
            assert(moves(b, start as int));
            lemma_image_is_entry(ab, start as int);
            lemma_orbit_same_action(ab, ba, cycle);
            lemma_orbit_of_factor(b, a, cycle);
            lemma_orbit_meets(b, cycles_b, cycle);
        }
    }
    assert forall|cycle: Seq<usize>| #[trigger]
        cycles_a.to_set().union(cycles_b.to_set()).contains(
            cycle,
        ) implies cycles_ab.to_set().contains(cycle) by {
        if cycles_a.to_set().contains(cycle) {
            let c = choose|c: int| 0 <= c < cycles_a.len() && cycles_a[c] == cycle;
            lemma_orbit_of_composite(a, b, ab, cycles_a, c);
        } else {
            let c = choose|c: int| 0 <= c < cycles_b.len() && cycles_b[c] == cycle;
            lemma_orbit_of_composite(b, a, ab, cycles_b, c);
        }
        lemma_orbit_meets(ab, cycles_ab, cycle);
    }
    assert(cycles_ab.to_set() =~= cycles_a.to_set().union(cycles_b.to_set()));
}

/// An orbit of one array is an orbit of another of the same action.
proof fn lemma_orbit_same_action(a: Seq<usize>, b: Seq<usize>, cycle: Seq<usize>)
    requires
        same_action(a, b),
        is_orbit(a, cycle),
        forall|k: int| 0 <= k < cycle.len() ==> a[(#[trigger] cycle[k]) as int] != cycle[k],
    ensures
        is_orbit(b, cycle),
{
    lemma_degree_of(a);
    lemma_degree_of(b);
    assert forall|k: int| 0 <= k < cycle.len() implies (#[trigger] cycle[k]) < b.len()
        && b[cycle[k] as int] == a[cycle[k] as int] by {
        let x = cycle[k] as int;
        assert(image(a, x) == image(b, x));
        lemma_image_is_entry(a, x);
    }
    lemma_orbit_carries_over(a, b, cycle);
}

/// Where a permutation sends a position.
spec fn target(a: Seq<usize>, position: usize) -> usize {
    image(a, position as int) as usize
}

/// No two positions are sent to the same place.
spec fn targets_differ(a: Seq<usize>) -> bool {
    forall|x: usize, y: usize| #[trigger] target(a, x) == #[trigger] target(a, y) ==> x == y
}

/// A bijection sends no two positions to the same place.
proof fn lemma_targets_differ(a: Seq<usize>)
    requires
        is_bijection(a),
    ensures
        targets_differ(a),
{
    lemma_image_bijective(a);
    lemma_degree_of(a);
    assert forall|x: usize, y: usize| #[trigger] target(a, x) == #[trigger] target(a, y) implies x
        == y by {
        assert(0 <= image(a, x as int) <= usize::MAX);
        assert(0 <= image(a, y as int) <= usize::MAX);
        assert(image(a, x as int) == image(a, y as int));
    }
}

/// A set of positions that is finite, and that a map without two equal
/// values sends into itself, is reached in full.
proof fn lemma_reaches_all(positions: Set<usize>, turn: spec_fn(usize) -> usize, position: usize)
    requires
        positions.finite(),
        forall|x: usize, y: usize| #[trigger] turn(x) == #[trigger] turn(y) ==> x == y,
        forall|x: usize| positions.contains(x) ==> positions.contains(#[trigger] turn(x)),
        positions.contains(position),
    ensures
        exists|source: usize| positions.contains(source) && #[trigger] turn(source) == position,
{
    let reached = positions.map(turn);
    assert(injective_on(turn, positions));
    lemma_map_size(positions, reached, turn);
    assert(reached.subset_of(positions)) by {
        assert forall|p: usize| reached.contains(p) implies positions.contains(p) by {
            let source = choose|source: usize| positions.contains(source) && p == turn(source);
            assert(positions.contains(turn(source)));
        }
    }
    lemma_subset_equality(reached, positions);
    assert(reached.contains(position));
    let source = choose|source: usize| positions.contains(source) && position == turn(source);
    assert(positions.contains(source) && turn(source) == position);
}

/// A bijection that sends every position of a finite state to a position of
/// the state reaches every position of the state.
proof fn lemma_turn_reaches_all(state: Map<usize, usize>, a: Seq<usize>, position: usize)
    requires
        state.dom().finite(),
        is_bijection(a),
        turnable(state, a),
        state.contains_key(position),
    ensures
        exists|source: usize| #[trigger] state.contains_key(source) && target(a, source) == position,
{
    lemma_targets_differ(a);
    let turn = |source: usize| target(a, source);
    assert forall|x: usize| state.dom().contains(x) implies state.dom().contains(
        #[trigger] turn(x),
    ) by {
        assert(state.contains_key(x));
    }
    assert forall|x: usize, y: usize| #[trigger] turn(x) == #[trigger] turn(y) implies x == y by {
        assert(target(a, x) == target(a, y));
    }
    lemma_reaches_all(state.dom(), turn, position);
    let source = choose|source: usize|
        state.dom().contains(source) && #[trigger] turn(source) == position;
    assert(state.contains_key(source) && target(a, source) == position);
}

/// A turn and then the turn by the inverse put every facelet back where it
/// was. The second turn never fails if the first did not.
pub proof fn law_turn_and_back(state: Map<usize, usize>, a: Seq<usize>)
    requires
        state.dom().finite(),
        is_bijection(a),
        turnable(state, a),
    ensures
        turnable(rotation(state, a), inverse_spec(a)),
        rotation(rotation(state, a), inverse_spec(a)) == state,
{
    let inv = inverse_spec(a);
    let turned = rotation(state, a);
    lemma_inverse(a);
    lemma_image_bijective(a);
    lemma_image_bijective(inv);
    assert forall|position: usize| #[trigger] turned.contains_key(position) implies turned.contains_key(
        target(inv, position),
    ) && turned[target(inv, position)] == state[position] by {
        lemma_turn_reaches_all(state, a, position);
        let source = choose|source: usize| #[trigger]
            state.contains_key(source) && target(a, source) == position;
        assert(image(inv, image(a, source as int)) == source);
        assert(image(a, source as int) >= 0);
        assert(target(inv, position) == source);
    }
    assert(rotation(turned, inv) =~= state);
}

/// Two turns, one after the other, are the turn by the composite of the two
/// permutations, the first turn written first.
pub proof fn law_turn_by_composite(state: Map<usize, usize>, a: Seq<usize>, b: Seq<usize>)
    requires
        is_bijection(a),
        is_bijection(b),
        turnable(state, a),
        turnable(state, b),
    ensures
        turnable(state, compose_spec(a, b)),
        rotation(rotation(state, a), b) == rotation(state, compose_spec(a, b)),
{
    lemma_turn_by_composite(state, a, b);
}

/// A move and then its inverse leave the puzzle with the facelets where they
/// were, and with moves made so far that send every position where they sent
/// it before the two moves, of the same degree and with the same identity
/// flag. The label of the moves made so far has grown by the labels of the two
/// moves, and the state before the last move is the state after the first.
pub proof fn law_rotate_and_back(puzzle: PolyhedronView, made: PermutationView)
    requires
        puzzle.wf(),
        made.wf(),
        turnable(puzzle.current, made.one_line),
    ensures
        turnable(puzzle.turned(made).current, made.inverse().one_line),
        puzzle.turned(made).turned(made.inverse()).current == puzzle.current,
        puzzle.turned(made).turned(made.inverse()).before == puzzle.turned(made).current,
        same_action(
            puzzle.turned(made).turned(made.inverse()).applied.one_line,
            puzzle.applied.one_line,
        ),
        puzzle.turned(made).turned(made.inverse()).applied.degree == puzzle.applied.degree,
        puzzle.turned(made).turned(made.inverse()).applied.is_identity
            == puzzle.applied.is_identity,
        puzzle.turned(made).turned(made.inverse()).applied.wf(),
{
    let a = made.one_line;
    let inv = made.inverse().one_line;
    let history = puzzle.applied.one_line;
    lemma_degree_of(a);
    if made.is_identity {
        assert(inv =~= Seq::<usize>::empty());
        assert(is_bijection(inv));
        lemma_degree_of(inv);
        let turned = rotation(puzzle.current, a);
        assert forall|position: usize| #[trigger] turned.contains_key(position) implies turned[position]
            == puzzle.current[position] by {
            assert(target(a, position) == position);
        }
        assert(turned =~= puzzle.current);
        assert forall|position: usize| #[trigger] turned.contains_key(position) implies rotation(
            turned,
            inv,
        )[position] == turned[position] by {
            assert(target(inv, position) == position);
        }
        assert(rotation(turned, inv) =~= puzzle.current);
        assert(turnable(turned, inv)) by {
            assert forall|position: usize| #[trigger] turned.contains_key(position) implies turned.contains_key(
                image(inv, position as int) as usize,
            ) by {
                assert(target(inv, position) == position);
            }
        }
        assert forall|x: int| #[trigger] image(a, image(inv, x)) == x by {}
    } else {
        law_turn_and_back(puzzle.current, a);
        lemma_inverse(a);
    }
    let first = compose_spec(history, a);
    lemma_compose(history, a);
    lemma_compose(first, inv);
    let both = compose_spec(first, inv);
    assert forall|x: int| #[trigger] image(both, x) == image(history, x) by {
        assert(image(both, x) == image(first, image(inv, x)));
        assert(image(first, image(inv, x)) == image(history, image(a, image(inv, x))));
    }
    assert(same_action(both, history));
    lemma_same_action(both, history);
}

} // verus!
