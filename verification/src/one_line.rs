//! The mathematical model of a permutation in one-line notation.
//!
//! A one-line array `a` stands for the map that sends `i` to `a[i]` for every
//! index below its degree and leaves every other integer where it is.

use vstd::prelude::*;
use vstd::relations::injective_on;
use vstd::seq_lib::seq_to_set_is_finite;
use vstd::set_lib::*;

verus! {

/// Every entry of `a` is an index of `a`.
pub open spec fn in_range(a: Seq<usize>) -> bool {
    forall|i: int| 0 <= i < a.len() ==> (#[trigger] a[i]) < a.len()
}

/// No two indices of `a` hold the same entry.
pub open spec fn injective(a: Seq<usize>) -> bool {
    forall|i: int, j: int|
        0 <= i < a.len() && 0 <= j < a.len() && #[trigger] a[i] == #[trigger] a[j] ==> i == j
}

/// `a` is a bijection of its own index range, and short enough to be held in
/// memory.
pub open spec fn is_bijection(a: Seq<usize>) -> bool {
    a.len() <= usize::MAX && in_range(a) && injective(a)
}

/// Every index of `a` is a fixed point.
pub open spec fn is_identity_array(a: Seq<usize>) -> bool {
    forall|i: int| 0 <= i < a.len() ==> #[trigger] a[i] == i
}

/// One more than the largest index that `a` moves, or 0 when it moves none.
pub open spec fn degree_of(a: Seq<usize>) -> nat
    decreases a.len(),
{
    if a.len() == 0 {
        0
    } else if a.last() != a.len() - 1 {
        a.len()
    } else {
        degree_of(a.drop_last())
    }
}

/// Where the permutation written as `a` sends `x`.
pub open spec fn image(a: Seq<usize>, x: int) -> int {
    if 0 <= x < degree_of(a) {
        a[x] as int
    } else {
        x
    }
}

/// `x` is not a fixed point of the permutation written as `a`.
pub open spec fn moves(a: Seq<usize>, x: int) -> bool {
    image(a, x) != x
}

/// `a` and `b` send every integer to the same place.
pub open spec fn same_action(a: Seq<usize>, b: Seq<usize>) -> bool {
    forall|x: int| #[trigger] image(a, x) == image(b, x)
}

/// The larger of two lengths.
pub open spec fn larger(m: nat, n: nat) -> nat {
    if m >= n {
        m
    } else {
        n
    }
}

/// One-line array of the composite: at index `i` it holds the image under `a`
/// of the image of `i` under `b`.
pub open spec fn compose_spec(a: Seq<usize>, b: Seq<usize>) -> Seq<usize> {
    Seq::new(larger(degree_of(a), degree_of(b)), |i: int| image(a, image(b, i)) as usize)
}

/// One-line array of the inverse: the index at which each entry stands. An
/// array without a moved index inverts to the empty array.
pub open spec fn inverse_spec(a: Seq<usize>) -> Seq<usize> {
    if is_identity_array(a) {
        Seq::empty()
    } else {
        Seq::new(a.len(), |j: int| a.index_of(j as usize) as usize)
    }
}

/// The degree is the least bound above which every index is fixed.
pub proof fn lemma_degree_of(a: Seq<usize>)
    ensures
        degree_of(a) <= a.len(),
        forall|i: int| degree_of(a) <= i < a.len() ==> #[trigger] a[i] == i,
        degree_of(a) > 0 ==> a[degree_of(a) - 1] != degree_of(a) - 1,
        degree_of(a) == 0 <==> is_identity_array(a),
    decreases a.len(),
{
    if a.len() == 0 {
    } else if a.last() != a.len() - 1 {
    } else {
        let front = a.drop_last();
        lemma_degree_of(front);
        assert forall|i: int| degree_of(a) <= i < a.len() implies #[trigger] a[i] == i by {
            if i < front.len() {
                assert(front[i] == a[i]);
            }
        }
        if degree_of(a) > 0 {
            assert(front[degree_of(a) - 1] == a[degree_of(a) - 1]);
        }
    }
}

/// A bound above which every index is fixed and whose predecessor is moved is
/// the degree.
pub proof fn lemma_degree_unique(a: Seq<usize>, d: nat)
    requires
        d <= a.len(),
        forall|i: int| d <= i < a.len() ==> #[trigger] a[i] == i,
        d > 0 ==> a[d - 1] != d - 1,
    ensures
        degree_of(a) == d,
{
    lemma_degree_of(a);
    let e = degree_of(a);
    if e < d {
        assert(a[d - 1] == d - 1);
    } else if d < e {
        assert(a[e - 1] == e - 1);
    }
}

/// Within the array the image is the entry, whether or not the index lies
/// below the degree.
pub proof fn lemma_image_is_entry(a: Seq<usize>, x: int)
    requires
        0 <= x < a.len(),
    ensures
        image(a, x) == a[x],
{
    lemma_degree_of(a);
}

/// A bijection maps the indices below its degree among themselves, and its
/// action is injective on all integers.
pub proof fn lemma_image_bijective(a: Seq<usize>)
    requires
        is_bijection(a),
    ensures
        forall|x: int| 0 <= x < degree_of(a) ==> 0 <= #[trigger] image(a, x) < degree_of(a),
        forall|x: int| 0 <= x < a.len() ==> 0 <= #[trigger] image(a, x) < a.len(),
        forall|x: int, y: int| #[trigger] image(a, x) == #[trigger] image(a, y) ==> x == y,
{
    lemma_degree_of(a);
    let d = degree_of(a);
    assert forall|x: int| 0 <= x < d implies 0 <= #[trigger] image(a, x) < d by {
        let y = a[x] as int;
        if y >= d {
            assert(a[y] == y);
            assert(a[x] == a[y]);
        }
    }
    assert forall|x: int| 0 <= x < a.len() implies 0 <= #[trigger] image(a, x) < a.len() by {
        lemma_image_is_entry(a, x);
    }
    assert forall|x: int, y: int| #[trigger] image(a, x) == #[trigger] image(a, y) implies x
        == y by {
        if 0 <= x < d && 0 <= y < d {
            assert(a[x] == a[y]);
        }
    }
}

/// Every index of a bijection occurs among its entries.
pub proof fn lemma_bijection_onto(a: Seq<usize>)
    requires
        is_bijection(a),
    ensures
        forall|j: usize| j < a.len() ==> #[trigger] a.contains(j),
{
    let n = a.len() as int;
    let entries = a.to_set();
    let indices = set_int_range(0, n);
    let targets = indices.map(|i: int| i as usize);
    lemma_int_range(0, n);
    assert(injective_on(|i: int| i as usize, indices)) by {
        assert forall|x: int, y: int|
            indices.contains(x) && indices.contains(y) && x as usize == y as usize implies x
            == y by {}
    }
    lemma_map_size(indices, targets, |i: int| i as usize);
    assert(a.no_duplicates());
    a.unique_seq_to_set();
    assert(entries.subset_of(targets)) by {
        assert forall|v: usize| entries.contains(v) implies targets.contains(v) by {
            let i = choose|i: int| 0 <= i < a.len() && a[i] == v;
            assert(a[i] < a.len());
            assert(indices.contains(v as int));
        }
    }
    seq_to_set_is_finite(a);
    lemma_subset_equality(entries, targets);
    assert forall|j: usize| j < a.len() implies #[trigger] a.contains(j) by {
        assert(indices.contains(j as int));
        assert(targets.contains(j));
        assert(entries.contains(j));
    }
}

/// The composite of two bijections is a bijection that sends `x` where `a`
/// sends the image of `x` under `b`.
pub proof fn lemma_compose(a: Seq<usize>, b: Seq<usize>)
    requires
        is_bijection(a),
        is_bijection(b),
    ensures
        is_bijection(compose_spec(a, b)),
        forall|x: int| #[trigger] image(compose_spec(a, b), x) == image(a, image(b, x)),
        degree_of(compose_spec(a, b)) <= larger(degree_of(a), degree_of(b)),
{
    let c = compose_spec(a, b);
    let n = larger(degree_of(a), degree_of(b)) as int;
    lemma_degree_of(a);
    lemma_degree_of(b);
    lemma_degree_of(c);
    lemma_image_bijective(a);
    lemma_image_bijective(b);
    assert forall|i: int| 0 <= i < n implies 0 <= image(a, #[trigger] image(b, i)) < n by {
        let y = image(b, i);
        assert(0 <= y < n);
    }
    assert forall|i: int| 0 <= i < c.len() implies (#[trigger] c[i]) < c.len() by {
        assert(0 <= image(a, image(b, i)) < n);
    }
    assert forall|i: int, j: int|
        0 <= i < c.len() && 0 <= j < c.len() && #[trigger] c[i] == #[trigger] c[j] implies i
        == j by {
        assert(0 <= image(a, image(b, i)) < n);
        assert(0 <= image(a, image(b, j)) < n);
        assert(image(a, image(b, i)) == image(a, image(b, j)));
        assert(image(b, i) == image(b, j));
    }
    assert forall|x: int| #[trigger] image(c, x) == image(a, image(b, x)) by {
        if 0 <= x < n {
            assert(0 <= image(a, image(b, x)) < n);
            lemma_image_is_entry(c, x);
        } else {
            assert(image(b, x) == x);
            assert(image(a, x) == x);
        }
    }
}

/// The inverse of a bijection is a bijection of the same degree that undoes
/// it, on either side.
pub proof fn lemma_inverse(a: Seq<usize>)
    requires
        is_bijection(a),
    ensures
        is_bijection(inverse_spec(a)),
        degree_of(inverse_spec(a)) == degree_of(a),
        forall|x: int| #[trigger] image(inverse_spec(a), image(a, x)) == x,
        forall|x: int| #[trigger] image(a, image(inverse_spec(a), x)) == x,
{
    let inv = inverse_spec(a);
    lemma_degree_of(a);
    lemma_degree_of(inv);
    lemma_image_bijective(a);
    if is_identity_array(a) {
        assert(inv.len() == 0);
    } else {
        lemma_bijection_onto(a);
        assert forall|j: int| 0 <= j < a.len() implies 0 <= (#[trigger] inv[j]) < a.len()
            && a[inv[j] as int] == j by {
            assert(a.contains(j as usize));
            let i = a.index_of(j as usize);
            assert(0 <= i < a.len() && a[i] == j as usize);
        }
        assert forall|i: int| 0 <= i < a.len() implies inv[(#[trigger] a[i]) as int] == i by {
            let j = a[i] as int;
            assert(a[inv[j] as int] == j);
        }
        assert(in_range(inv));
        assert(injective(inv)) by {
            assert forall|i: int, j: int|
                0 <= i < inv.len() && 0 <= j < inv.len() && #[trigger] inv[i]
                    == #[trigger] inv[j] implies i == j by {
                assert(a[inv[i] as int] == i);
                assert(a[inv[j] as int] == j);
            }
        }
        let d = degree_of(a);
        assert forall|i: int| d <= i < inv.len() implies #[trigger] inv[i] == i by {
            assert(a[i] == i);
            assert(inv[a[i] as int] == i);
        }
        assert(d > 0);
        assert(inv[d - 1] != d - 1) by {
            if inv[d - 1] == d - 1 {
                assert(a[inv[d - 1] as int] == d - 1);
            }
        }
        lemma_degree_unique(inv, d);
        assert forall|x: int| #[trigger] image(inv, image(a, x)) == x by {
            if 0 <= x < d {
                assert(0 <= image(a, x) < d);
                assert(inv[a[x] as int] == x);
            }
        }
        assert forall|x: int| #[trigger] image(a, image(inv, x)) == x by {
            if 0 <= x < d {
                assert(a[inv[x] as int] == x);
                assert(inv[x] < d) by {
                    if inv[x] >= d {
                        assert(a[inv[x] as int] == inv[x]);
                    }
                }
            }
        }
    }
}

/// Two bijections with the same action agree on every index below their
/// common degree.
pub proof fn lemma_same_action(a: Seq<usize>, b: Seq<usize>)
    requires
        same_action(a, b),
    ensures
        degree_of(a) == degree_of(b),
        a.take(degree_of(a) as int) == b.take(degree_of(b) as int),
        is_identity_array(a) == is_identity_array(b),
{
    lemma_degree_of(a);
    lemma_degree_of(b);
    let da = degree_of(a);
    let db = degree_of(b);
    if da < db {
        assert(image(a, db - 1) == image(b, db - 1));
    } else if db < da {
        assert(image(a, da - 1) == image(b, da - 1));
    }
    assert forall|i: int| 0 <= i < da implies a.take(da as int)[i] == b.take(db as int)[i] by {
        assert(image(a, i) == image(b, i));
    }
    assert(a.take(da as int) =~= b.take(db as int));
}

} // verus!
