//! Cycle notation: a permutation as a list of disjoint cycles of positions.
//!
//! Each position of a cycle is sent to the one after it, and the last to the
//! first. Positions that stand in no cycle are fixed.

use crate::one_line::{degree_of, is_bijection, lemma_degree_of, moves};
use vstd::prelude::*;

verus! {


/// The cycles as sequences of positions.
pub open spec fn cycles_view(cycles: &Vec<Vec<usize>>) -> Seq<Seq<usize>> {
    Seq::new(cycles@.len(), |c: int| cycles@[c]@)
}

/// The index that follows `k` on a cycle of `n` entries.
pub open spec fn next_index(n: nat, k: int) -> int {
    if k + 1 < n {
        k + 1
    } else {
        0
    }
}

/// Position `x` is entry `k` of cycle `c`.
pub open spec fn stands_at(cycles: Seq<Seq<usize>>, c: int, k: int, x: usize) -> bool {
    0 <= c < cycles.len() && 0 <= k < cycles[c].len() && cycles[c][k] == x
}

/// Position `x` stands in one of the cycles.
pub open spec fn occurs(cycles: Seq<Seq<usize>>, x: usize) -> bool {
    exists|c: int, k: int| stands_at(cycles, c, k, x)
}

/// No position stands at two places, be it in one cycle or in two.
pub open spec fn disjoint_cycles(cycles: Seq<Seq<usize>>) -> bool {
    forall|c1: int, k1: int, c2: int, k2: int|
        0 <= c1 < cycles.len() && 0 <= k1 < cycles[c1].len() && 0 <= c2 < cycles.len() && 0 <= k2
            < cycles[c2].len() && #[trigger] cycles[c1][k1] == #[trigger] cycles[c2][k2] ==> c1
            == c2 && k1 == k2
}

/// Some cycle has exactly one entry.
pub open spec fn has_degenerate_cycle(cycles: Seq<Seq<usize>>) -> bool {
    exists|c: int| 0 <= c < cycles.len() && (#[trigger] cycles[c]).len() == 1
}

/// Cycle `c` is the first with exactly one entry.
pub open spec fn first_degenerate_cycle(cycles: Seq<Seq<usize>>, c: int) -> bool {
    &&& 0 <= c < cycles.len()
    &&& cycles[c].len() == 1
    &&& forall|b: int| 0 <= b < c ==> (#[trigger] cycles[b]).len() != 1
}

/// One more than the largest position of the cycle, or 0 for the empty cycle.
pub open spec fn cycle_bound(cycle: Seq<usize>) -> nat
    decreases cycle.len(),
{
    if cycle.len() == 0 {
        0
    } else {
        let rest = cycle_bound(cycle.drop_last());
        if cycle.last() + 1 > rest {
            (cycle.last() + 1) as nat
        } else {
            rest
        }
    }
}

/// One more than the largest position of all the cycles, or 0 when they hold
/// no position.
pub open spec fn cycles_bound(cycles: Seq<Seq<usize>>) -> nat
    decreases cycles.len(),
{
    if cycles.len() == 0 {
        0
    } else {
        let rest = cycles_bound(cycles.drop_last());
        let last = cycle_bound(cycles.last());
        if last > rest {
            last
        } else {
            rest
        }
    }
}

/// Where cycle notation sends `x`: to the entry after it on its cycle, or to
/// itself when it stands in none.
pub open spec fn successor(cycles: Seq<Seq<usize>>, x: usize) -> usize {
    if occurs(cycles, x) {
        let (c, k) = choose|c: int, k: int| stands_at(cycles, c, k, x);
        cycles[c][next_index(cycles[c].len(), k)]
    } else {
        x
    }
}

/// The one-line array of the permutation that the cycles write: as long as
/// [`cycles_bound`], with the [`successor`] of each index.
pub open spec fn cycles_to_one_line(cycles: Seq<Seq<usize>>) -> Seq<usize> {
    Seq::new(cycles_bound(cycles), |x: int| successor(cycles, x as usize))
}

/// Every position of a cycle lies below its bound, and a cycle that is not
/// empty holds the position just below it.
pub proof fn lemma_cycle_bound(cycle: Seq<usize>)
    ensures
        forall|k: int| 0 <= k < cycle.len() ==> (#[trigger] cycle[k]) < cycle_bound(cycle),
        cycle.len() > 0 ==> exists|k: int|
            0 <= k < cycle.len() && #[trigger] cycle[k] == cycle_bound(cycle) - 1,
        cycle.len() == 0 ==> cycle_bound(cycle) == 0,
    decreases cycle.len(),
{
    if cycle.len() > 0 {
        let front = cycle.drop_last();
        lemma_cycle_bound(front);
        assert forall|k: int| 0 <= k < cycle.len() implies (#[trigger] cycle[k]) < cycle_bound(
            cycle,
        ) by {
            if k < front.len() {
                assert(front[k] == cycle[k]);
            }
        }
        if cycle.last() + 1 > cycle_bound(front) {
            assert(cycle[cycle.len() - 1] == cycle_bound(cycle) - 1);
        } else {
            let k = choose|k: int| 0 <= k < front.len() && #[trigger] front[k] == cycle_bound(front) - 1;
            assert(cycle[k] == cycle_bound(cycle) - 1);
        }
    }
}

/// Every position of the cycles lies below their bound, and where the bound
/// is not 0 the position just below it stands in one of them.
pub proof fn lemma_cycles_bound(cycles: Seq<Seq<usize>>)
    ensures
        forall|c: int, k: int|
            0 <= c < cycles.len() && 0 <= k < cycles[c].len() ==> (#[trigger] cycles[c][k])
                < cycles_bound(cycles),
        cycles_bound(cycles) > 0 ==> exists|c: int, k: int|
            0 <= c < cycles.len() && 0 <= k < cycles[c].len() && #[trigger] cycles[c][k]
                == cycles_bound(cycles) - 1,
    decreases cycles.len(),
{
    if cycles.len() > 0 {
        let front = cycles.drop_last();
        let last = cycles.last();
        lemma_cycles_bound(front);
        lemma_cycle_bound(last);
        assert forall|c: int, k: int|
            0 <= c < cycles.len() && 0 <= k < cycles[c].len() implies (#[trigger] cycles[c][k])
            < cycles_bound(cycles) by {
            if c < front.len() {
                assert(front[c] == cycles[c]);
                assert(front[c][k] < cycles_bound(front));
            }
        }
        if cycles_bound(cycles) > 0 {
            if cycle_bound(last) > cycles_bound(front) {
                let k = choose|k: int|
                    0 <= k < last.len() && #[trigger] last[k] == cycle_bound(last) - 1;
                assert(cycles[cycles.len() - 1][k] == cycles_bound(cycles) - 1);
            } else {
                let (c, k) = choose|c: int, k: int|
                    0 <= c < front.len() && 0 <= k < front[c].len() && #[trigger] front[c][k]
                        == cycles_bound(front) - 1;
                assert(front[c] == cycles[c]);
                assert(cycles[c][k] == cycles_bound(cycles) - 1);
            }
        }
    }
}

/// A number above every position, whose predecessor is a position unless it
/// is 0, is the bound of the cycles.
pub proof fn lemma_cycles_bound_unique(cycles: Seq<Seq<usize>>, n: nat)
    requires
        forall|c: int, k: int|
            0 <= c < cycles.len() && 0 <= k < cycles[c].len() ==> (#[trigger] cycles[c][k]) < n,
        n > 0 ==> exists|c: int, k: int|
            0 <= c < cycles.len() && 0 <= k < cycles[c].len() && #[trigger] cycles[c][k] == n - 1,
    ensures
        cycles_bound(cycles) == n,
{
    lemma_cycles_bound(cycles);
    let m = cycles_bound(cycles);
    if m < n {
        let (c, k) = choose|c: int, k: int|
            0 <= c < cycles.len() && 0 <= k < cycles[c].len() && #[trigger] cycles[c][k] == n - 1;
        assert(cycles[c][k] < m);
    } else if n < m {
        let (c, k) = choose|c: int, k: int|
            0 <= c < cycles.len() && 0 <= k < cycles[c].len() && #[trigger] cycles[c][k] == m - 1;
        assert(cycles[c][k] < n);
    }
}

/// In disjoint cycles the successor of a position is the entry that follows
/// it, wherever the position was found.
pub proof fn lemma_successor(cycles: Seq<Seq<usize>>, c: int, k: int, x: usize)
    requires
        disjoint_cycles(cycles),
        stands_at(cycles, c, k, x),
    ensures
        successor(cycles, x) == cycles[c][next_index(cycles[c].len(), k)],
{
    let (c2, k2) = choose|c2: int, k2: int| stands_at(cycles, c2, k2, x);
    assert(cycles[c][k] == cycles[c2][k2]);
}

/// Disjoint cycles without a cycle of one entry write a bijection.
pub proof fn lemma_cycles_to_one_line_bijection(cycles: Seq<Seq<usize>>)
    requires
        disjoint_cycles(cycles),
        cycles_bound(cycles) <= usize::MAX,
    ensures
        is_bijection(cycles_to_one_line(cycles)),
{
    let a = cycles_to_one_line(cycles);
    let n = cycles_bound(cycles);
    lemma_cycles_bound(cycles);
    assert forall|i: int| 0 <= i < a.len() implies (#[trigger] a[i]) < a.len() by {
        let x = i as usize;
        if occurs(cycles, x) {
            let (c, k) = choose|c: int, k: int| stands_at(cycles, c, k, x);
            let next = next_index(cycles[c].len(), k);
            assert(cycles[c][next] < n);
        }
    }
    assert forall|i: int, j: int|
        0 <= i < a.len() && 0 <= j < a.len() && #[trigger] a[i] == #[trigger] a[j] implies i
        == j by {
        let x = i as usize;
        let y = j as usize;
        if occurs(cycles, x) {
            let (c, k) = choose|c: int, k: int| stands_at(cycles, c, k, x);
            let next = next_index(cycles[c].len(), k);
            assert(stands_at(cycles, c, next, a[i]));
            if occurs(cycles, y) {
                let (c2, k2) = choose|c2: int, k2: int| stands_at(cycles, c2, k2, y);
                let next2 = next_index(cycles[c2].len(), k2);
                assert(cycles[c][next] == cycles[c2][next2]);
                assert(c == c2 && next == next2);
                assert(k == k2);
            } else {
                assert(stands_at(cycles, c, next, y));
            }
        } else if occurs(cycles, y) {
            let (c2, k2) = choose|c2: int, k2: int| stands_at(cycles, c2, k2, y);
            let next2 = next_index(cycles[c2].len(), k2);
            assert(stands_at(cycles, c2, next2, x));
        }
    }
}

/// `cycle` is one orbit of the permutation written as `a`, of two positions
/// or more, each followed by its image, written from its smallest position.
pub open spec fn is_orbit(a: Seq<usize>, cycle: Seq<usize>) -> bool {
    &&& cycle.len() >= 2
    &&& forall|k: int| 0 <= k < cycle.len() ==> (#[trigger] cycle[k]) < a.len()
    &&& forall|k: int|
        0 <= k < cycle.len() ==> #[trigger] a[cycle[k] as int] == cycle[next_index(cycle.len(), k)]
    &&& forall|k: int| 0 < k < cycle.len() ==> cycle[0] < #[trigger] cycle[k]
}

/// `cycles` is the cycle notation of the permutation written as `a`: its
/// orbits of two positions or more, each once, in the order of their smallest
/// positions.
pub open spec fn is_cycle_decomposition(a: Seq<usize>, cycles: Seq<Seq<usize>>) -> bool {
    &&& forall|c: int| 0 <= c < cycles.len() ==> is_orbit(a, #[trigger] cycles[c])
    &&& forall|b: int, c: int|
        0 <= b < c < cycles.len() ==> (#[trigger] cycles[b])[0] < (#[trigger] cycles[c])[0]
    &&& disjoint_cycles(cycles)
    &&& forall|x: usize| x < a.len() && a[x as int] != x ==> #[trigger] occurs(cycles, x)
}

/// The cycle notation of the permutation written as `a`.
pub open spec fn cycle_notation(a: Seq<usize>) -> Seq<Seq<usize>> {
    choose|cycles: Seq<Seq<usize>>| is_cycle_decomposition(a, cycles)
}

/// An entry of a cycle of the cycle notation is a position that the
/// permutation moves.
pub proof fn lemma_orbit_entry_moved(a: Seq<usize>, cycles: Seq<Seq<usize>>, c: int, k: int)
    requires
        is_cycle_decomposition(a, cycles),
        0 <= c < cycles.len(),
        0 <= k < cycles[c].len(),
    ensures
        cycles[c][k] < degree_of(a),
        a[cycles[c][k] as int] != cycles[c][k],
        moves(a, cycles[c][k] as int),
{
    lemma_degree_of(a);
    let cycle = cycles[c];
    assert(is_orbit(a, cycle));
    let next = next_index(cycle.len(), k);
    assert(a[cycle[k] as int] == cycle[next]);
    assert(cycles[c][next] != cycles[c][k]);
}

/// The index reached from `i` after `t` steps round a cycle of `n` entries.
spec fn walk(n: nat, i: int, t: nat) -> int
    decreases t,
{
    if t == 0 {
        i
    } else {
        next_index(n, walk(n, i, (t - 1) as nat))
    }
}

/// A walk stays on the cycle, and reaches entry 0 after `n - i` steps.
proof fn lemma_walk(n: nat, i: int, t: nat)
    requires
        0 <= i < n,
    ensures
        0 <= walk(n, i, t) < n,
        t < n - i ==> walk(n, i, t) == i + t,
        t == n - i ==> walk(n, i, t) == 0,
    decreases t,
{
    if t > 0 {
        lemma_walk(n, i, (t - 1) as nat);
    }
}

/// Two orbits that meet keep in step from where they meet.
proof fn lemma_orbits_in_step(a: Seq<usize>, c: Seq<usize>, d: Seq<usize>, i: int, j: int, t: nat)
    requires
        is_orbit(a, c),
        is_orbit(a, d),
        0 <= i < c.len(),
        0 <= j < d.len(),
        c[i] == d[j],
    ensures
        c[walk(c.len(), i, t)] == d[walk(d.len(), j, t)],
    decreases t,
{
    if t > 0 {
        let s = (t - 1) as nat;
        lemma_orbits_in_step(a, c, d, i, j, s);
        lemma_walk(c.len(), i, s);
        lemma_walk(d.len(), j, s);
        let ci = walk(c.len(), i, s);
        let dj = walk(d.len(), j, s);
        assert(a[c[ci] as int] == c[next_index(c.len(), ci)]);
        assert(a[d[dj] as int] == d[next_index(d.len(), dj)]);
    }
}

/// The first entry of an orbit stands in every orbit that meets it.
proof fn lemma_orbit_start_shared(a: Seq<usize>, c: Seq<usize>, d: Seq<usize>, i: int, j: int)
    requires
        is_orbit(a, c),
        is_orbit(a, d),
        0 <= i < c.len(),
        0 <= j < d.len(),
        c[i] == d[j],
    ensures
        d[0] <= c[0],
{
    let t = (c.len() - i) as nat;
    lemma_orbits_in_step(a, c, d, i, j, t);
    lemma_walk(c.len(), i, t);
    lemma_walk(d.len(), j, t);
    let k = walk(d.len(), j, t);
    assert(c[0] == d[k]);
}

/// Two orbits of one permutation that have a position in common are the same
/// cycle.
pub proof fn lemma_orbit_unique(a: Seq<usize>, c: Seq<usize>, d: Seq<usize>, i: int, j: int)
    requires
        is_orbit(a, c),
        is_orbit(a, d),
        0 <= i < c.len(),
        0 <= j < d.len(),
        c[i] == d[j],
    ensures
        c == d,
{
    lemma_orbit_start_shared(a, c, d, i, j);
    lemma_orbit_start_shared(a, d, c, j, i);
    assert(c[0] == d[0]);
    let n = c.len();
    let m = d.len();
    if n < m {
        lemma_orbits_in_step(a, c, d, 0, 0, n);
        lemma_walk(n, 0, n);
        lemma_walk(m, 0, n);
        assert(d[n as int] == c[0]);
        assert(false);
    }
    if m < n {
        lemma_orbits_in_step(a, c, d, 0, 0, m);
        lemma_walk(n, 0, m);
        lemma_walk(m, 0, m);
        assert(c[m as int] == d[0]);
        assert(false);
    }
    assert forall|k: int| 0 <= k < n implies c[k] == d[k] by {
        lemma_orbits_in_step(a, c, d, 0, 0, k as nat);
        lemma_walk(n, 0, k as nat);
        lemma_walk(m, 0, k as nat);
    }
    assert(c =~= d);
}

/// An orbit of a permutation is one of the cycles of its cycle notation.
pub proof fn lemma_orbit_meets(a: Seq<usize>, cycles: Seq<Seq<usize>>, cycle: Seq<usize>)
    requires
        is_bijection(a),
        is_cycle_decomposition(a, cycles),
        is_orbit(a, cycle),
    ensures
        cycles.to_set().contains(cycle),
{
    let start = cycle[0];
    assert(a[cycle[0] as int] == cycle[next_index(cycle.len(), 0)]);
    assert(cycle[next_index(cycle.len(), 0)] == cycle[1]);
    assert(a[start as int] != start);
    assert(occurs(cycles, start));
    let (c, k) = choose|c: int, k: int| stands_at(cycles, c, k, start);
    assert(is_orbit(a, cycles[c]));
    lemma_orbit_unique(a, cycle, cycles[c], 0, k);
    assert(cycles[c] == cycle);
}

/// Two cycle notations of one permutation agree on their first `i` cycles.
proof fn lemma_cycle_notations_agree(
    a: Seq<usize>,
    first: Seq<Seq<usize>>,
    second: Seq<Seq<usize>>,
    i: nat,
)
    requires
        is_bijection(a),
        is_cycle_decomposition(a, first),
        is_cycle_decomposition(a, second),
        i <= first.len(),
        i <= second.len(),
    ensures
        forall|j: int| 0 <= j < i ==> first[j] == second[j],
    decreases i,
{
    if i > 0 {
        let k = (i - 1) as int;
        lemma_cycle_notations_agree(a, first, second, k as nat);
        lemma_orbit_meets(a, second, first[k]);
        lemma_orbit_meets(a, first, second[k]);
        let in_second = choose|j: int| 0 <= j < second.len() && second[j] == first[k];
        let in_first = choose|j: int| 0 <= j < first.len() && first[j] == second[k];
        if in_second < k {
            assert(first[in_second] == second[in_second]);
            assert(first[in_second][0] < first[k][0]);
        }
        if in_first < k {
            assert(first[in_first] == second[in_first]);
            assert(second[in_first][0] < second[k][0]);
        }
        if in_second > k {
            assert(second[k][0] < second[in_second][0]);
            if in_first > k {
                assert(first[k][0] < first[in_first][0]);
            }
        }
    }
}

/// A permutation has one cycle notation only.
pub proof fn law_cycle_notation_unique(
    a: Seq<usize>,
    first: Seq<Seq<usize>>,
    second: Seq<Seq<usize>>,
)
    requires
        is_bijection(a),
        is_cycle_decomposition(a, first),
        is_cycle_decomposition(a, second),
    ensures
        first == second,
{
    let n = first.len();
    let m = second.len();
    if n < m {
        lemma_cycle_notations_agree(a, first, second, n);
        lemma_orbit_meets(a, first, second[n as int]);
        let j = choose|j: int| 0 <= j < first.len() && first[j] == second[n as int];
        assert(second[j] == first[j]);
        assert(second[j][0] < second[n as int][0]);
        assert(false);
    }
    if m < n {
        lemma_cycle_notations_agree(a, first, second, m);
        lemma_orbit_meets(a, second, first[m as int]);
        let j = choose|j: int| 0 <= j < second.len() && second[j] == first[m as int];
        assert(second[j] == first[j]);
        assert(first[j][0] < first[m as int][0]);
        assert(false);
    }
    lemma_cycle_notations_agree(a, first, second, n);
    assert(first =~= second);
}

} // verus!
