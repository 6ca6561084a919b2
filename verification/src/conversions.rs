//! Conversion between one-line arrays and cycle notation.

use crate::cycles::{
    cycle_notation, cycles_bound, cycles_to_one_line, cycles_view, disjoint_cycles,
    first_degenerate_cycle, has_degenerate_cycle, is_cycle_decomposition, is_orbit,
    law_cycle_notation_unique, lemma_cycles_bound, lemma_cycles_bound_unique,
    lemma_cycles_to_one_line_bijection, lemma_successor, next_index, occurs, stands_at, successor,
};
use crate::errors::ConstructionError;
use crate::one_line::is_bijection;
use crate::utils::next_false;
use vstd::prelude::*;
use vstd::relations::injective_on;
use vstd::seq_lib::seq_to_set_is_finite;
use vstd::set_lib::{lemma_int_range, lemma_len_subset, lemma_map_size, set_int_range};

verus! {

/// A sequence of distinct numbers below `n` has at most `n` entries.
proof fn lemma_distinct_below(s: Seq<usize>, n: nat)
    requires
        s.no_duplicates(),
        n <= usize::MAX,
        forall|k: int| 0 <= k < s.len() ==> (#[trigger] s[k]) < n,
    ensures
        s.len() <= n,
{
    let indices = set_int_range(0, n as int);
    let targets = indices.map(|i: int| i as usize);
    lemma_int_range(0, n as int);
    assert(injective_on(|i: int| i as usize, indices));
    lemma_map_size(indices, targets, |i: int| i as usize);
    s.unique_seq_to_set();
    seq_to_set_is_finite(s);
    assert(s.to_set().subset_of(targets)) by {
        assert forall|v: usize| s.to_set().contains(v) implies targets.contains(v) by {
            let k = choose|k: int| 0 <= k < s.len() && s[k] == v;
            assert(s[k] < n);
            assert(indices.contains(v as int));
        }
    }
    lemma_len_subset(s.to_set(), targets);
}

/// Entry `k0` of cycle `c0` stands before entry `k` of cycle `c`.
spec fn earlier(cycles: Seq<Seq<usize>>, c0: int, k0: int, c: int, k: int) -> bool {
    0 <= c0 < cycles.len() && 0 <= k0 < cycles[c0].len() && (c0 < c || (c0 == c && k0 < k))
}

/// No position stands twice among the entries before entry `k` of cycle `c`.
spec fn set_apart(cycles: Seq<Seq<usize>>, c: int, k: int) -> bool {
    forall|c1: int, k1: int, c2: int, k2: int|
        earlier(cycles, c1, k1, c, k) && earlier(cycles, c2, k2, c, k)
            && #[trigger] cycles[c1][k1] == #[trigger] cycles[c2][k2] ==> c1 == c2 && k1 == k2
}

/// Position `x` stands in a cycle before cycle `c`, or in cycle `c` before
/// entry `k`.
spec fn placed(cycles: Seq<Seq<usize>>, c: int, k: int, x: usize) -> bool {
    exists|c0: int, k0: int| #[trigger]
        stands_at(cycles, c0, k0, x) && (c0 < c || (c0 == c && k0 < k))
}

/// Whether `cycles` may be written as a permutation: whether no position
/// stands twice in them, and the array that they write can be held.
pub fn are_disjoint_cycles(cycles: &Vec<Vec<usize>>) -> (valid: bool)
    ensures
        valid == (disjoint_cycles(cycles_view(cycles)) && cycles_bound(cycles_view(cycles))
            <= usize::MAX),
{
    let ghost cv = cycles_view(cycles);
    proof {
        lemma_cycles_bound(cv);
    }
    let mut degree: usize = 0;
    let mut c: usize = 0;
    while c < cycles.len()
        invariant
            cv == cycles_view(cycles),
            c <= cycles@.len(),
            forall|b: int, k: int|
                0 <= b < c && 0 <= k < cv[b].len() ==> (#[trigger] cv[b][k]) < degree,
            degree > 0 ==> exists|b: int, k: int|
                0 <= b < c && 0 <= k < cv[b].len() && #[trigger] cv[b][k] == degree - 1,
            forall|b: int, k: int|
                0 <= b < cv.len() && 0 <= k < cv[b].len() ==> (#[trigger] cv[b][k])
                    < cycles_bound(cv),
        decreases cycles@.len() - c,
    {
        let cycle = &cycles[c];
        assert(cycle@ == cv[c as int]);
        let mut k: usize = 0;
        while k < cycle.len()
            invariant
                cv == cycles_view(cycles),
                c < cycles@.len(),
                cycle@ == cv[c as int],
                k <= cycle@.len(),
                forall|b: int, j: int|
                    0 <= b < c && 0 <= j < cv[b].len() ==> (#[trigger] cv[b][j]) < degree,
                forall|j: int| 0 <= j < k ==> (#[trigger] cycle@[j]) < degree,
                degree > 0 ==> exists|b: int, j: int|
                    0 <= b <= c && 0 <= j < cv[b].len() && (b < c || j < k) && #[trigger] cv[b][j]
                        == degree - 1,
                forall|b: int, j: int|
                    0 <= b < cv.len() && 0 <= j < cv[b].len() ==> (#[trigger] cv[b][j])
                        < cycles_bound(cv),
            decreases cycle@.len() - k,
        {
            let position = cycle[k];
            assert(position == cv[c as int][k as int]);
            if position == usize::MAX {
                return false;
            }
            if position >= degree {
                degree = position + 1;
                assert(cv[c as int][k as int] == degree - 1);
            }
            k += 1;
        }
        c += 1;
    }
    proof {
        lemma_cycles_bound_unique(cv, degree as nat);
    }
    let mut seen: Vec<bool> = Vec::with_capacity(degree);
    let mut i: usize = 0;
    while i < degree
        invariant
            i <= degree,
            seen@.len() == i,
            forall|j: int| 0 <= j < i ==> !#[trigger] seen@[j],
        decreases degree - i,
    {
        seen.push(false);
        i += 1;
    }
    let mut c: usize = 0;
    while c < cycles.len()
        invariant
            cv == cycles_view(cycles),
            degree == cycles_bound(cv),
            c <= cycles@.len(),
            seen@.len() == degree,
            forall|x: usize| x < degree ==> (#[trigger] seen@[x as int] <==> placed(cv, c as int, 0, x)),
            set_apart(cv, c as int, 0),
        decreases cycles@.len() - c,
    {
        let cycle = &cycles[c];
        assert(cycle@ == cv[c as int]);
        let mut k: usize = 0;
        while k < cycle.len()
            invariant
                cv == cycles_view(cycles),
                degree == cycles_bound(cv),
                c < cycles@.len(),
                cycle@ == cv[c as int],
                k <= cycle@.len(),
                seen@.len() == degree,
                forall|x: usize|
                    x < degree ==> (#[trigger] seen@[x as int] <==> placed(
                        cv,
                        c as int,
                        k as int,
                        x,
                    )),
                set_apart(cv, c as int, k as int),
            decreases cycle@.len() - k,
        {
            let position = cycle[k];
            proof {
                lemma_cycles_bound(cv);
                assert(position == cv[c as int][k as int]);
            }
            if seen[position] {
                proof {
                    let (c0, k0) = choose|c0: int, k0: int| #[trigger]
                        stands_at(cv, c0, k0, position) && (c0 < c || (c0 == c && k0 < k));
                    assert(cv[c0][k0] == cv[c as int][k as int]);
                }
                return false;
            }
            seen.set(position, true);
            proof {
                assert forall|x: usize| x < degree implies (#[trigger] seen@[x as int] <==> placed(
                    cv,
                    c as int,
                    k as int + 1,
                    x,
                )) by {
                    if x == position {
                        assert(stands_at(cv, c as int, k as int, x) && (c < c || (c == c && k < k
                            + 1)));
                    } else {
                        if placed(cv, c as int, k as int + 1, x) {
                            let (c0, k0) = choose|c0: int, k0: int| #[trigger]
                                stands_at(cv, c0, k0, x) && (c0 < c || (c0 == c && k0 < k + 1));
                            assert(stands_at(cv, c0, k0, x) && (c0 < c || (c0 == c && k0 < k)));
                        }
                        if placed(cv, c as int, k as int, x) {
                            let (c0, k0) = choose|c0: int, k0: int| #[trigger]
                                stands_at(cv, c0, k0, x) && (c0 < c || (c0 == c && k0 < k));
                            assert(stands_at(cv, c0, k0, x) && (c0 < c || (c0 == c && k0 < k + 1)));
                        }
                    }
                }
                assert forall|c1: int, k1: int, c2: int, k2: int|
                    earlier(cv, c1, k1, c as int, k as int + 1) && earlier(
                        cv,
                        c2,
                        k2,
                        c as int,
                        k as int + 1,
                    ) && #[trigger] cv[c1][k1] == #[trigger] cv[c2][k2] implies c1 == c2 && k1
                    == k2 by {
                    let here1 = c1 == c && k1 == k;
                    let here2 = c2 == c && k2 == k;
                    if here1 && !here2 {
                        assert(stands_at(cv, c2, k2, position) && (c2 < c || (c2 == c && k2 < k)));
                        assert(placed(cv, c as int, k as int, position));
                    } else if here2 && !here1 {
                        assert(stands_at(cv, c1, k1, position) && (c1 < c || (c1 == c && k1 < k)));
                        assert(placed(cv, c as int, k as int, position));
                    } else if !here1 && !here2 {
                        assert(earlier(cv, c1, k1, c as int, k as int));
                        assert(earlier(cv, c2, k2, c as int, k as int));
                    }
                }
            }
            k += 1;
        }
        proof {
            let length = cycle@.len() as int;
            assert forall|x: usize| #[trigger]
                placed(cv, c as int, length, x) <==> placed(cv, c as int + 1, 0, x) by {
                if placed(cv, c as int, length, x) {
                    let (c0, k0) = choose|c0: int, k0: int| #[trigger]
                        stands_at(cv, c0, k0, x) && (c0 < c || (c0 == c && k0 < length));
                    assert(stands_at(cv, c0, k0, x) && (c0 < c + 1 || (c0 == c + 1 && k0 < 0)));
                }
                if placed(cv, c as int + 1, 0, x) {
                    let (c0, k0) = choose|c0: int, k0: int| #[trigger]
                        stands_at(cv, c0, k0, x) && (c0 < c + 1 || (c0 == c + 1 && k0 < 0));
                    assert(stands_at(cv, c0, k0, x) && (c0 < c || (c0 == c && k0 < length)));
                }
            }
            assert forall|c1: int, k1: int, c2: int, k2: int|
                earlier(cv, c1, k1, c as int + 1, 0) && earlier(cv, c2, k2, c as int + 1, 0)
                    && #[trigger] cv[c1][k1] == #[trigger] cv[c2][k2] implies c1 == c2 && k1
                == k2 by {
                assert(earlier(cv, c1, k1, c as int, length));
                assert(earlier(cv, c2, k2, c as int, length));
            }
        }
        c += 1;
    }
    proof {
        assert forall|c1: int, k1: int, c2: int, k2: int|
            0 <= c1 < cv.len() && 0 <= k1 < cv[c1].len() && 0 <= c2 < cv.len() && 0 <= k2
                < cv[c2].len() && #[trigger] cv[c1][k1] == #[trigger] cv[c2][k2] implies c1 == c2
            && k1 == k2 by {
            assert(earlier(cv, c1, k1, cv.len() as int, 0));
            assert(earlier(cv, c2, k2, cv.len() as int, 0));
        }
    }
    true
}

/// The one-line array of the permutation that `cycles` writes.
///
/// Fails when a cycle has exactly one entry, and names the first such cycle.
/// An empty cycle adds nothing.
pub fn convert_cycles_to_one_line(cycles: &Vec<Vec<usize>>) -> (converted: Result<
    Vec<usize>,
    ConstructionError,
>)
    requires
        disjoint_cycles(cycles_view(cycles)),
        cycles_bound(cycles_view(cycles)) <= usize::MAX,
    ensures
        match converted {
            Ok(one_line) => {
                &&& !has_degenerate_cycle(cycles_view(cycles))
                &&& one_line@ == cycles_to_one_line(cycles_view(cycles))
                &&& is_bijection(one_line@)
            },
            Err(error) => first_degenerate_cycle(cycles_view(cycles), error.cycle as int),
        },
{
    let ghost cv = cycles_view(cycles);
    proof {
        lemma_cycles_bound(cv);
    }
    let mut degree: usize = 0;
    let mut c: usize = 0;
    while c < cycles.len()
        invariant
            cv == cycles_view(cycles),
            c <= cycles@.len(),
            forall|b: int| 0 <= b < c ==> (#[trigger] cv[b]).len() != 1,
            forall|b: int, k: int|
                0 <= b < c && 0 <= k < cv[b].len() ==> (#[trigger] cv[b][k]) < degree,
            degree > 0 ==> exists|b: int, k: int|
                0 <= b < c && 0 <= k < cv[b].len() && #[trigger] cv[b][k] == degree - 1,
            forall|b: int, k: int|
                0 <= b < cv.len() && 0 <= k < cv[b].len() ==> (#[trigger] cv[b][k]) < usize::MAX,
        decreases cycles@.len() - c,
    {
        let cycle = &cycles[c];
        assert(cycle@ == cv[c as int]);
        if cycle.len() == 1 {
            return Err(ConstructionError { cycle: c });
        }
        let mut k: usize = 0;
        while k < cycle.len()
            invariant
                cv == cycles_view(cycles),
                c < cycles@.len(),
                cycle@ == cv[c as int],
                k <= cycle@.len(),
                forall|b: int, j: int|
                    0 <= b < c && 0 <= j < cv[b].len() ==> (#[trigger] cv[b][j]) < degree,
                forall|j: int| 0 <= j < k ==> (#[trigger] cycle@[j]) < degree,
                degree > 0 ==> exists|b: int, j: int|
                    0 <= b <= c && 0 <= j < cv[b].len() && (b < c || j < k) && #[trigger] cv[b][j]
                        == degree - 1,
                forall|b: int, j: int|
                    0 <= b < cv.len() && 0 <= j < cv[b].len() ==> (#[trigger] cv[b][j])
                        < usize::MAX,
            decreases cycle@.len() - k,
        {
            let position = cycle[k];
            assert(position == cv[c as int][k as int]);
            if position >= degree {
                degree = position + 1;
                assert(cv[c as int][k as int] == degree - 1);
            }
            k += 1;
        }
        c += 1;
    }
    proof {
        assert(!has_degenerate_cycle(cv));
        lemma_cycles_bound_unique(cv, degree as nat);
        lemma_cycles_to_one_line_bijection(cv);
    }
    if degree == 0 {
        let empty: Vec<usize> = Vec::new();
        assert(empty@ =~= cycles_to_one_line(cv));
        return Ok(empty);
    }
    let mut permutation: Vec<usize> = Vec::with_capacity(degree);
    let mut i: usize = 0;
    while i < degree
        invariant
            i <= degree,
            permutation@.len() == i,
            forall|j: int| 0 <= j < i ==> #[trigger] permutation@[j] == j,
        decreases degree - i,
    {
        permutation.push(i);
        i += 1;
    }
    let mut c: usize = 0;
    while c < cycles.len()
        invariant
            cv == cycles_view(cycles),
            disjoint_cycles(cv),
            degree == cycles_bound(cv),
            c <= cycles@.len(),
            permutation@.len() == degree,
            forall|x: usize|
                x < degree ==> #[trigger] permutation@[x as int] == (if placed(cv, c as int, 0, x) {
                    successor(cv, x)
                } else {
                    x
                }),
        decreases cycles@.len() - c,
    {
        let current_cycle = &cycles[c];
        assert(current_cycle@ == cv[c as int]);
        let length = current_cycle.len();
        let mut k: usize = 0;
        while k < length
            invariant
                cv == cycles_view(cycles),
                disjoint_cycles(cv),
                degree == cycles_bound(cv),
                c < cycles@.len(),
                current_cycle@ == cv[c as int],
                length == current_cycle@.len(),
                k <= length,
                permutation@.len() == degree,
                forall|x: usize|
                    x < degree ==> #[trigger] permutation@[x as int] == (if placed(
                        cv,
                        c as int,
                        k as int,
                        x,
                    ) {
                        successor(cv, x)
                    } else {
                        x
                    }),
            decreases length - k,
        {
            let next = if k + 1 < length {
                k + 1
            } else {
                0
            };
            let position = current_cycle[k];
            let target = current_cycle[next];
            proof {
                lemma_cycles_bound(cv);
                assert(position == cv[c as int][k as int]);
                assert(stands_at(cv, c as int, k as int, position));
                lemma_successor(cv, c as int, k as int, position);
            }
            let ghost before = permutation@;
            permutation.set(position, target);
            proof {
                assert forall|x: usize| x < degree implies #[trigger] permutation@[x as int] == (
                if placed(cv, c as int, k as int + 1, x) {
                    successor(cv, x)
                } else {
                    x
                }) by {
                    if x == position {
                    } else {
                        assert(permutation@[x as int] == before[x as int]);
                        if placed(cv, c as int, k as int + 1, x) {
                            let (c0, k0) = choose|c0: int, k0: int| #[trigger]
                                stands_at(cv, c0, k0, x) && (c0 < c || (c0 == c && k0 < k + 1));
                            assert(stands_at(cv, c0, k0, x) && (c0 < c || (c0 == c && k0 < k)));
                        }
                        if placed(cv, c as int, k as int, x) {
                            let (c0, k0) = choose|c0: int, k0: int| #[trigger]
                                stands_at(cv, c0, k0, x) && (c0 < c || (c0 == c && k0 < k));
                            assert(stands_at(cv, c0, k0, x) && (c0 < c || (c0 == c && k0 < k + 1)));
                        }
                    }
                }
            }
            k += 1;
        }
        proof {
            assert forall|x: usize| #[trigger]
                placed(cv, c as int, length as int, x) <==> placed(cv, c as int + 1, 0, x) by {
                if placed(cv, c as int, length as int, x) {
                    let (c0, k0) = choose|c0: int, k0: int| #[trigger]
                        stands_at(cv, c0, k0, x) && (c0 < c || (c0 == c && k0 < length));
                    assert(stands_at(cv, c0, k0, x) && (c0 < c + 1 || (c0 == c + 1 && k0 < 0)));
                }
                if placed(cv, c as int + 1, 0, x) {
                    let (c0, k0) = choose|c0: int, k0: int| #[trigger]
                        stands_at(cv, c0, k0, x) && (c0 < c + 1 || (c0 == c + 1 && k0 < 0));
                    assert(stands_at(cv, c0, k0, x) && (c0 < c || (c0 == c && k0 < length)));
                }
            }
        }
        c += 1;
    }
    proof {
        assert forall|x: usize| x < degree implies #[trigger] permutation@[x as int] == successor(
            cv,
            x,
        ) by {
            if occurs(cv, x) {
                let (c0, k0) = choose|c0: int, k0: int| stands_at(cv, c0, k0, x);
                assert(stands_at(cv, c0, k0, x) && (c0 < cv.len() || (c0 == cv.len() && k0 < 0)));
            }
        }
        assert forall|i: int| 0 <= i < degree implies permutation@[i] == cycles_to_one_line(
            cv,
        )[i] by {
            assert(permutation@[(i as usize) as int] == successor(cv, i as usize));
        }
        assert(permutation@ =~= cycles_to_one_line(cv));
    }
    Ok(permutation)
}

/// What holds between two cycles of the scan: every position below `from` has
/// been visited, the visited positions are closed under taking the preimage,
/// and `cycles` holds the orbits of the visited positions that are moved.
spec fn scan_inv(a: Seq<usize>, seen: Seq<bool>, cycles: Seq<Seq<usize>>, from: int) -> bool {
    &&& is_bijection(a)
    &&& seen.len() == a.len()
    &&& 0 <= from <= a.len()
    &&& forall|j: int| 0 <= j < from ==> #[trigger] seen[j]
    &&& forall|j: int| 0 <= j < a.len() && #[trigger] seen[a[j] as int] ==> seen[j]
    &&& forall|c: int, k: int|
        0 <= c < cycles.len() && 0 <= k < cycles[c].len() ==> (#[trigger] cycles[c][k]) < a.len()
            && seen[cycles[c][k] as int]
    &&& forall|x: usize|
        x < a.len() && seen[x as int] && a[x as int] != x ==> #[trigger] occurs(cycles, x)
    &&& forall|c: int| 0 <= c < cycles.len() ==> is_orbit(a, #[trigger] cycles[c])
    &&& forall|c: int| 0 <= c < cycles.len() ==> (#[trigger] cycles[c])[0] < from
    &&& forall|b: int, c: int|
        0 <= b < c < cycles.len() ==> (#[trigger] cycles[b])[0] < (#[trigger] cycles[c])[0]
    &&& disjoint_cycles(cycles)
}

/// What holds while one cycle is walked from `start`: `cycle` holds the
/// positions visited since, each followed by its image, none of them visited
/// before, and `current` is the position to visit next.
spec fn walk_inv(
    a: Seq<usize>,
    seen0: Seq<bool>,
    seen: Seq<bool>,
    start: usize,
    cycle: Seq<usize>,
    current: usize,
) -> bool {
    &&& is_bijection(a)
    &&& seen.len() == a.len()
    &&& seen0.len() == a.len()
    &&& start < a.len()
    &&& current < a.len()
    &&& !seen0[start as int]
    &&& a[start as int] != start
    &&& forall|j: int| 0 <= j < start ==> #[trigger] seen0[j]
    &&& forall|j: int| 0 <= j < a.len() && #[trigger] seen0[a[j] as int] ==> seen0[j]
    &&& forall|j: int|
        0 <= j < a.len() ==> (#[trigger] seen[j] <==> seen0[j] || cycle.contains(j as usize))
    &&& cycle.no_duplicates()
    &&& forall|k: int|
        0 <= k < cycle.len() ==> (#[trigger] cycle[k]) < a.len() && !seen0[cycle[k] as int]
    &&& cycle.len() > 0 ==> cycle[0] == start
    &&& forall|k: int| 0 <= k < cycle.len() - 1 ==> #[trigger] a[cycle[k] as int] == cycle[k + 1]
    &&& current == (if cycle.len() == 0 {
        start
    } else {
        a[cycle.last() as int]
    })
}

/// Visiting a fixed point keeps the scan's invariant.
proof fn lemma_scan_fixed_point(
    a: Seq<usize>,
    seen: Seq<bool>,
    cycles: Seq<Seq<usize>>,
    from: int,
    start: usize,
)
    requires
        scan_inv(a, seen, cycles, from),
        from <= start < a.len(),
        forall|j: int| from <= j < start ==> seen[j],
        a[start as int] == start,
    ensures
        scan_inv(a, seen.update(start as int, true), cycles, start + 1),
{
    let after = seen.update(start as int, true);
    assert forall|j: int| 0 <= j < a.len() && #[trigger] after[a[j] as int] implies after[j] by {
        if !seen[a[j] as int] {
            assert(a[j] == a[start as int]);
        } else {
            assert(seen[j]);
        }
    }
    assert forall|x: usize|
        x < a.len() && after[x as int] && a[x as int] != x implies #[trigger] occurs(cycles, x) by {
        assert(seen[x as int]);
    }
    assert forall|j: int| 0 <= j < start + 1 implies #[trigger] after[j] by {
        if j < from {
            assert(seen[j]);
        }
    }
}

/// A walk may begin at a moved position that has not been visited.
proof fn lemma_walk_begin(
    a: Seq<usize>,
    seen: Seq<bool>,
    cycles: Seq<Seq<usize>>,
    from: int,
    start: usize,
)
    requires
        scan_inv(a, seen, cycles, from),
        from <= start < a.len(),
        forall|j: int| from <= j < start ==> seen[j],
        !seen[start as int],
        a[start as int] != start,
    ensures
        walk_inv(a, seen, seen, start, Seq::empty(), start),
{
    assert forall|j: int| 0 <= j < start implies #[trigger] seen[j] by {
        if j < from {
        }
    }
}

/// Visiting the current position, which had not been visited, carries the
/// walk on to its image; the cycle was shorter than the array.
proof fn lemma_walk_step(
    a: Seq<usize>,
    seen0: Seq<bool>,
    seen: Seq<bool>,
    start: usize,
    cycle: Seq<usize>,
    current: usize,
)
    requires
        walk_inv(a, seen0, seen, start, cycle, current),
        !seen[current as int],
    ensures
        walk_inv(
            a,
            seen0,
            seen.update(current as int, true),
            start,
            cycle.push(current),
            a[current as int],
        ),
        cycle.len() < a.len(),
{
    let longer = cycle.push(current);
    let after = seen.update(current as int, true);
    assert(!cycle.contains(current));
    assert(!seen0[current as int]);
    assert(longer.no_duplicates()) by {
        assert forall|p: int, q: int|
            0 <= p < longer.len() && 0 <= q < longer.len() && p != q implies longer[p]
            != longer[q] by {
            if p == cycle.len() {
                assert(cycle[q] == longer[q]);
                assert(cycle.contains(cycle[q]));
            } else if q == cycle.len() {
                assert(cycle[p] == longer[p]);
                assert(cycle.contains(cycle[p]));
            }
        }
    }
    lemma_distinct_below(longer, a.len());
    assert forall|j: int| 0 <= j < a.len() implies (#[trigger] after[j] <==> seen0[j]
        || longer.contains(j as usize)) by {
        if j == current {
            assert(longer[longer.len() - 1] == current);
        } else {
            assert(after[j] == seen[j]);
            if cycle.contains(j as usize) {
                let k = choose|k: int| 0 <= k < cycle.len() && cycle[k] == j as usize;
                assert(longer[k] == j as usize);
            }
            if longer.contains(j as usize) {
                let k = choose|k: int| 0 <= k < longer.len() && longer[k] == j as usize;
                assert(cycle[k] == j as usize);
            }
        }
    }
    assert forall|k: int| 0 <= k < longer.len() implies (#[trigger] longer[k]) < a.len()
        && !seen0[longer[k] as int] by {
        if k < cycle.len() {
            assert(longer[k] == cycle[k]);
        }
    }
    assert forall|k: int| 0 <= k < longer.len() - 1 implies #[trigger] a[longer[k] as int]
        == longer[k + 1] by {
        assert(longer[k] == cycle[k]);
        if k < cycle.len() - 1 {
            assert(a[cycle[k] as int] == cycle[k + 1]);
            assert(longer[k + 1] == cycle[k + 1]);
        }
    }
    assert(a[current as int] < a.len());
}

/// A walk that reaches a visited position has come back to where it began:
/// what it collected is an orbit that starts at its smallest position.
proof fn lemma_walk_closed(
    a: Seq<usize>,
    seen0: Seq<bool>,
    seen: Seq<bool>,
    start: usize,
    cycle: Seq<usize>,
    current: usize,
)
    requires
        walk_inv(a, seen0, seen, start, cycle, current),
        seen[current as int],
    ensures
        current == start,
        is_orbit(a, cycle),
        cycle[0] == start,
{
    if cycle.len() == 0 {
        assert(!cycle.contains(start));
        assert(false);
    }
    let last = cycle[cycle.len() - 1];
    if seen0[current as int] {
        assert(seen0[a[last as int] as int]);
        assert(seen0[last as int]);
        assert(false);
    }
    assert(cycle.contains(current));
    let j = choose|j: int| 0 <= j < cycle.len() && cycle[j] == current;
    if j > 0 {
        assert(a[cycle[j - 1] as int] == cycle[j]);
        assert(a[cycle[j - 1] as int] == a[last as int]);
        assert(cycle[j - 1] == cycle[cycle.len() - 1]);
        assert(false);
    }
    assert forall|k: int| 0 < k < cycle.len() implies cycle[0] < #[trigger] cycle[k] by {
        if cycle[k] < start {
            assert(seen0[cycle[k] as int]);
        }
    }
    assert forall|k: int| 0 <= k < cycle.len() implies #[trigger] a[cycle[k] as int]
        == cycle[next_index(cycle.len(), k)] by {
        if k + 1 < cycle.len() {
        } else {
            assert(cycle[k] == last);
        }
    }
}

/// Once a walk has closed, the scan's invariant holds with its cycle added.
proof fn lemma_scan_cycle(
    a: Seq<usize>,
    seen0: Seq<bool>,
    seen: Seq<bool>,
    cycles: Seq<Seq<usize>>,
    from: int,
    start: usize,
    cycle: Seq<usize>,
)
    requires
        scan_inv(a, seen0, cycles, from),
        from <= start,
        walk_inv(a, seen0, seen, start, cycle, start),
        is_orbit(a, cycle),
        cycle[0] == start,
    ensures
        scan_inv(a, seen, cycles.push(cycle), start + 1),
{
    let all = cycles.push(cycle);
    let m = cycles.len() as int;
    assert(all[m] == cycle);
    assert forall|b: int| 0 <= b < m implies #[trigger] all[b] == cycles[b] by {}
    assert forall|j: int| 0 <= j < start + 1 implies #[trigger] seen[j] by {
        if j == start {
            assert(cycle.contains(cycle[0]));
        } else {
            assert(seen0[j]);
        }
    }
    assert forall|j: int| 0 <= j < a.len() && #[trigger] seen[a[j] as int] implies seen[j] by {
        if !seen0[a[j] as int] {
            assert(cycle.contains(a[j]));
            let k = choose|k: int| 0 <= k < cycle.len() && cycle[k] == a[j];
            if k > 0 {
                assert(a[cycle[k - 1] as int] == cycle[next_index(cycle.len(), k - 1)]);
                assert(cycle[k - 1] == j);
            } else {
                let last = cycle.len() - 1;
                assert(a[cycle[last] as int] == cycle[next_index(cycle.len(), last)]);
                assert(cycle[last] == j);
            }
            assert(cycle.contains(j as usize));
        } else {
            assert(seen0[j]);
        }
    }
    assert forall|c: int, k: int| 0 <= c < all.len() && 0 <= k < all[c].len() implies (
    #[trigger] all[c][k]) < a.len() && seen[all[c][k] as int] by {
        if c < m {
            assert(all[c] == cycles[c]);
            assert(seen0[cycles[c][k] as int]);
        } else {
            assert(cycle.contains(cycle[k]));
        }
    }
    assert forall|x: usize|
        x < a.len() && seen[x as int] && a[x as int] != x implies #[trigger] occurs(all, x) by {
        if seen0[x as int] {
            assert(occurs(cycles, x));
            let (b, k) = choose|b: int, k: int| stands_at(cycles, b, k, x);
            assert(all[b] == cycles[b]);
            assert(stands_at(all, b, k, x));
        } else {
            assert(cycle.contains(x));
            let k = choose|k: int| 0 <= k < cycle.len() && cycle[k] == x;
            assert(stands_at(all, m, k, x));
        }
    }
    assert forall|c: int| 0 <= c < all.len() implies is_orbit(a, #[trigger] all[c]) by {
        if c < m {
            assert(all[c] == cycles[c]);
        }
    }
    assert forall|c: int| 0 <= c < all.len() implies (#[trigger] all[c])[0] < start + 1 by {
        if c < m {
            assert(all[c] == cycles[c]);
        }
    }
    assert forall|b: int, c: int| 0 <= b < c < all.len() implies (#[trigger] all[b])[0] < (
    #[trigger] all[c])[0] by {
        assert(all[b] == cycles[b]);
        if c < m {
            assert(all[c] == cycles[c]);
        }
    }
    assert(disjoint_cycles(all)) by {
        assert forall|c1: int, k1: int, c2: int, k2: int|
            0 <= c1 < all.len() && 0 <= k1 < all[c1].len() && 0 <= c2 < all.len() && 0 <= k2
                < all[c2].len() && #[trigger] all[c1][k1] == #[trigger] all[c2][k2] implies c1
            == c2 && k1 == k2 by {
            if c1 < m && c2 < m {
                assert(all[c1] == cycles[c1] && all[c2] == cycles[c2]);
                assert(cycles[c1][k1] == cycles[c2][k2]);
            } else if c1 < m {
                assert(all[c1] == cycles[c1]);
                assert(seen0[cycles[c1][k1] as int]);
                assert(!seen0[cycle[k2] as int]);
            } else if c2 < m {
                assert(all[c2] == cycles[c2]);
                assert(seen0[cycles[c2][k2] as int]);
                assert(!seen0[cycle[k1] as int]);
            }
        }
    }
}

/// When every position has been visited, the cycles are the cycle notation.
proof fn lemma_scan_done(a: Seq<usize>, seen: Seq<bool>, cycles: Seq<Seq<usize>>, from: int)
    requires
        scan_inv(a, seen, cycles, from),
        forall|j: int| from <= j < a.len() ==> seen[j],
    ensures
        is_cycle_decomposition(a, cycles),
{
    assert forall|x: usize| x < a.len() && a[x as int] != x implies #[trigger] occurs(
        cycles,
        x,
    ) by {
        if x < from {
            assert(seen[x as int]);
        } else {
            assert(seen[x as int]);
        }
    }
}

/// The cycle notation of the permutation written as `one_line`.
///
/// Positions are scanned in ascending order. A fixed point opens no cycle;
/// every other position that no earlier cycle holds opens one, which follows
/// the images until they come back to it.
pub fn convert_one_line_to_cycles(one_line: &Vec<usize>) -> (cycles: Vec<Vec<usize>>)
    requires
        is_bijection(one_line@),
    ensures
        is_cycle_decomposition(one_line@, cycles_view(&cycles)),
        cycles_view(&cycles) == cycle_notation(one_line@),
{
    let n = one_line.len();
    let mut cycles: Vec<Vec<usize>> = Vec::new();
    let mut seen: Vec<bool> = Vec::with_capacity(n);
    let mut i: usize = 0;
    while i < n
        invariant
            i <= n,
            seen@.len() == i,
            forall|j: int| 0 <= j < i ==> !#[trigger] seen@[j],
        decreases n - i,
    {
        seen.push(false);
        i += 1;
    }
    let mut from: usize = 0;
    assert(cycles_view(&cycles) =~= Seq::empty());
    loop
        invariant_except_break
            n == one_line@.len(),
            scan_inv(one_line@, seen@, cycles_view(&cycles), from as int),
        ensures
            is_cycle_decomposition(one_line@, cycles_view(&cycles)),
        decreases n - from,
    {
        let found = next_false(&seen, from);
        if found.is_none() {
            proof {
                lemma_scan_done(one_line@, seen@, cycles_view(&cycles), from as int);
            }
            break ;
        }
        let start = found.unwrap();
        if one_line[start] == start {
            proof {
                lemma_scan_fixed_point(one_line@, seen@, cycles_view(&cycles), from as int, start);
            }
            seen.set(start, true);
            from = start + 1;
            continue ;
        }
        let ghost seen0 = seen@;
        let ghost cycles0 = cycles_view(&cycles);
        let mut cycle: Vec<usize> = Vec::new();
        let mut current = start;
        proof {
            lemma_walk_begin(one_line@, seen0, cycles0, from as int, start);
        }
        while !seen[current]
            invariant
                n == one_line@.len(),
                walk_inv(one_line@, seen0, seen@, start, cycle@, current),
            decreases n - cycle@.len(),
        {
            proof {
                lemma_walk_step(one_line@, seen0, seen@, start, cycle@, current);
            }
            seen.set(current, true);
            cycle.push(current);
            current = one_line[current];
        }
        proof {
            lemma_walk_closed(one_line@, seen0, seen@, start, cycle@, current);
            lemma_scan_cycle(one_line@, seen0, seen@, cycles0, from as int, start, cycle@);
        }
        cycles.push(cycle);
        from = start + 1;
        assert(cycles_view(&cycles) =~= cycles0.push(cycle@));
    }
    proof {
        law_cycle_notation_unique(one_line@, cycles_view(&cycles), cycle_notation(one_line@));
    }
    cycles
}

} // verus!
