//! Permutations of the natural numbers with finite support.
//!
//! A permutation carries a label and its one-line array. Composition is
//! written in application order: `compose(f, g)` holds, at index `i`, the
//! image under `f` of the image of `i` under `g`.

use crate::conversions::{convert_cycles_to_one_line, convert_one_line_to_cycles};
use crate::cycles::{
    cycle_notation, cycles_bound, cycles_to_one_line, cycles_view, disjoint_cycles,
    first_degenerate_cycle, has_degenerate_cycle, is_cycle_decomposition,
};
use crate::errors::ConstructionError;
use crate::one_line::{
    compose_spec, degree_of, image, inverse_spec, is_bijection, is_identity_array, larger,
    lemma_bijection_onto, lemma_compose, lemma_degree_of, lemma_degree_unique, lemma_inverse,
};
use crate::text::{lists_text, numbers_text, write_lists, write_numbers};
use vstd::prelude::*;
use vstd::std_specs::cmp::PartialEqSpecImpl;
use vstd::string::StringExecFns;

verus! {

/// What a [`Permutation`] is, as a mathematical value.
pub ghost struct PermutationView {
    /// The display label.
    pub label: Seq<char>,
    /// The one-line array: index `i` holds the image of `i`.
    pub one_line: Seq<usize>,
    /// Whether the array moves no index.
    pub is_identity: bool,
    /// One more than the largest moved index, or 0.
    pub degree: nat,
}

/// A labelled permutation in one-line notation.
#[derive(Debug)]
pub struct Permutation {
    name: String,
    one_line_permutation: Vec<usize>,
    is_identity: bool,
    internal_degree: usize,
}

/// Label of a composite: both labels around `" * "`.
pub open spec fn compose_label(first: Seq<char>, second: Seq<char>) -> Seq<char> {
    first + " * "@ + second
}

/// Label of an inverse: the label followed by `i`.
pub open spec fn inverse_label(label: Seq<char>) -> Seq<char> {
    label + "i"@
}

impl PermutationView {
    /// The array is a bijection and the two cached fields describe it.
    pub open spec fn wf(self) -> bool {
        &&& is_bijection(self.one_line)
        &&& self.is_identity == is_identity_array(self.one_line)
        &&& self.degree == degree_of(self.one_line)
    }

    /// Where the permutation sends `x`.
    pub open spec fn image(self, x: int) -> int {
        image(self.one_line, x)
    }

    /// The permutation with the given label and one-line array.
    pub open spec fn from_one_line(label: Seq<char>, one_line: Seq<usize>) -> PermutationView {
        PermutationView {
            label,
            one_line,
            is_identity: is_identity_array(one_line),
            degree: degree_of(one_line),
        }
    }

    /// The identity, labelled `id`, with the empty array.
    pub open spec fn identity() -> PermutationView {
        PermutationView::from_one_line("id"@, Seq::empty())
    }

    /// The composite of `self` and `other`, in application order.
    pub open spec fn compose(self, other: PermutationView) -> PermutationView {
        PermutationView::from_one_line(
            compose_label(self.label, other.label),
            compose_spec(self.one_line, other.one_line),
        )
    }

    /// The inverse. A permutation that moves nothing keeps its label and gets
    /// the empty array.
    pub open spec fn inverse(self) -> PermutationView {
        if self.is_identity {
            PermutationView::from_one_line(self.label, Seq::empty())
        } else {
            PermutationView::from_one_line(inverse_label(self.label), inverse_spec(self.one_line))
        }
    }

    /// The same permutation under another label.
    pub open spec fn relabel(self, label: Seq<char>) -> PermutationView {
        PermutationView { label, ..self }
    }

    /// The permutation that the cycles write, under the given label.
    pub open spec fn from_cycles(label: Seq<char>, cycles: Seq<Seq<usize>>) -> PermutationView {
        PermutationView::from_one_line(label, cycles_to_one_line(cycles))
    }

    /// The conjugate of `other` by `self`: `self`, `other` and the inverse of
    /// `self`, composed from the left.
    pub open spec fn conjugate(self, other: PermutationView) -> PermutationView {
        self.compose(other).compose(self.inverse())
    }

    /// The commutator of `self` and `other`: `other`, `self`, the inverse of
    /// `other` and the inverse of `self`, composed from the left.
    pub open spec fn commutator(self, other: PermutationView) -> PermutationView {
        other.compose(self).compose(other.inverse()).compose(self.inverse())
    }
}

/// The permutations of a list, as mathematical values.
pub open spec fn views_of(permutations: Seq<&Permutation>) -> Seq<PermutationView> {
    Seq::new(permutations.len(), |i: int| permutations[i]@)
}

/// The composite of a list of permutations, taken from the left: the identity
/// for the empty list, the first one for a list of one.
pub open spec fn compose_all(views: Seq<PermutationView>) -> PermutationView
    decreases views.len(),
{
    if views.len() == 0 {
        PermutationView::identity()
    } else if views.len() == 1 {
        PermutationView::from_one_line(views[0].label, views[0].one_line)
    } else {
        compose_all(views.drop_last()).compose(views.last())
    }
}

impl View for Permutation {
    type V = PermutationView;

    closed spec fn view(&self) -> PermutationView {
        PermutationView {
            label: self.name@,
            one_line: self.one_line_permutation@,
            is_identity: self.is_identity,
            degree: self.internal_degree as nat,
        }
    }
}

/// Whether `one_line` moves no index.
pub fn is_identity(one_line: &Vec<usize>) -> (flag: bool)
    ensures
        flag == is_identity_array(one_line@),
{
    let mut i: usize = 0;
    while i < one_line.len()
        invariant
            i <= one_line@.len(),
            forall|j: int| 0 <= j < i ==> #[trigger] one_line@[j] == j,
        decreases one_line@.len() - i,
    {
        if i != one_line[i] {
            return false;
        }
        i += 1;
    }
    true
}

/// Whether `one_line` is a bijection of its own index range: whether it may
/// be the array of a permutation.
pub fn is_one_line(one_line: &Vec<usize>) -> (valid: bool)
    ensures
        valid == is_bijection(one_line@),
{
    let n = one_line.len();
    let mut seen: Vec<bool> = Vec::with_capacity(n);
    let mut i: usize = 0;
    while i < n
        invariant
            i <= n,
            seen@.len() == i,
            forall|j: int| 0 <= j < i ==> !#[trigger] seen@[j],
        decreases n - i,
    {
        seen.push(false);
        i += 1;
    }
    let mut i: usize = 0;
    while i < n
        invariant
            n == one_line@.len(),
            seen@.len() == n,
            i <= n,
            forall|j: int| 0 <= j < i ==> (#[trigger] one_line@[j]) < n,
            forall|j: int, k: int|
                0 <= j < i && 0 <= k < i && #[trigger] one_line@[j] == #[trigger] one_line@[k] ==> j
                    == k,
            forall|x: int|
                0 <= x < n ==> (#[trigger] seen@[x] <==> exists|j: int|
                    0 <= j < i && #[trigger] one_line@[j] == x),
        decreases n - i,
    {
        let entry = one_line[i];
        if entry >= n {
            return false;
        }
        if seen[entry] {
            proof {
                let j = choose|j: int| 0 <= j < i && #[trigger] one_line@[j] == entry;
                assert(one_line@[j] == one_line@[i as int] && j != i);
            }
            return false;
        }
        let ghost before = seen@;
        seen.set(entry, true);
        proof {
            assert forall|x: int| 0 <= x < n implies (#[trigger] seen@[x] <==> exists|j: int|
                0 <= j < i + 1 && #[trigger] one_line@[j] == x) by {
                if x == entry {
                    assert(one_line@[i as int] == x);
                } else {
                    if before[x] {
                        let j = choose|j: int| 0 <= j < i && #[trigger] one_line@[j] == x;
                        assert(0 <= j < i + 1 && one_line@[j] == x);
                    }
                    if exists|j: int| 0 <= j < i + 1 && #[trigger] one_line@[j] == x {
                        let j = choose|j: int| 0 <= j < i + 1 && #[trigger] one_line@[j] == x;
                        assert(0 <= j < i && one_line@[j] == x);
                    }
                }
            }
            assert forall|j: int, k: int|
                0 <= j < i + 1 && 0 <= k < i + 1 && #[trigger] one_line@[j]
                    == #[trigger] one_line@[k] implies j == k by {
                if j == i && k < i {
                    assert(before[one_line@[k] as int]);
                }
                if k == i && j < i {
                    assert(before[one_line@[j] as int]);
                }
            }
        }
        i += 1;
    }
    true
}

/// One more than the largest index that `one_line` moves, or 0.
pub fn internal_degree(one_line: &Vec<usize>) -> (degree: usize)
    ensures
        degree == degree_of(one_line@),
{
    let mut i: usize = one_line.len();
    while i > 0
        invariant
            i <= one_line@.len(),
            forall|j: int| i <= j < one_line@.len() ==> #[trigger] one_line@[j] == j,
        decreases i,
    {
        if one_line[i - 1] != i - 1 {
            proof {
                lemma_degree_unique(one_line@, i as nat);
            }
            return i;
        }
        i -= 1;
    }
    proof {
        lemma_degree_unique(one_line@, 0);
    }
    0
}

/// The composite of `p1` and `p2`: its array has the larger of the two
/// degrees as length and holds `p1.apply(p2.apply(i))` at index `i`.
pub fn compose(p1: &Permutation, p2: &Permutation) -> (composite: Permutation)
    requires
        p1.wf(),
        p2.wf(),
    ensures
        composite.wf(),
        composite@ == p1@.compose(p2@),
{
    let d1 = p1.degree();
    let d2 = p2.degree();
    let new_degree = if d1 >= d2 {
        d1
    } else {
        d2
    };
    let mut result_one_line: Vec<usize> = Vec::with_capacity(new_degree);
    let mut i: usize = 0;
    while i < new_degree
        invariant
            p1.wf(),
            p2.wf(),
            i <= new_degree,
            new_degree == larger(degree_of(p1@.one_line), degree_of(p2@.one_line)),
            result_one_line@.len() == i,
            forall|j: int|
                0 <= j < i ==> #[trigger] result_one_line@[j] == image(
                    p1@.one_line,
                    image(p2@.one_line, j),
                ),
        decreases new_degree - i,
    {
        let inner = p2.apply(i);
        let outer = p1.apply(inner);
        result_one_line.push(outer);
        i += 1;
    }
    let name = p1.name.clone().concat(" * ").concat(p2.name.as_str());
    proof {
        lemma_compose(p1@.one_line, p2@.one_line);
        assert(result_one_line@ =~= compose_spec(p1@.one_line, p2@.one_line));
    }
    Permutation::create_permutation_one_line(name, result_one_line)
}

/// `compose(p1, p2)`.
pub fn compose_2(p1: &Permutation, p2: &Permutation) -> (composite: Permutation)
    requires
        p1.wf(),
        p2.wf(),
    ensures
        composite.wf(),
        composite@ == p1@.compose(p2@),
{
    compose(p1, p2)
}

/// The composite of three permutations, taken from the left.
pub fn compose_3(p1: &Permutation, p2: &Permutation, p3: &Permutation) -> (composite: Permutation)
    requires
        p1.wf(),
        p2.wf(),
        p3.wf(),
    ensures
        composite.wf(),
        composite@ == p1@.compose(p2@).compose(p3@),
{
    compose(&compose(p1, p2), p3)
}

/// The composite of four permutations, taken from the left.
pub fn compose_4(
    p1: &Permutation,
    p2: &Permutation,
    p3: &Permutation,
    p4: &Permutation,
) -> (composite: Permutation)
    requires
        p1.wf(),
        p2.wf(),
        p3.wf(),
        p4.wf(),
    ensures
        composite.wf(),
        composite@ == p1@.compose(p2@).compose(p3@).compose(p4@),
{
    compose(&compose_3(p1, p2, p3), p4)
}

/// The composite of five permutations, taken from the left.
pub fn compose_5(
    p1: &Permutation,
    p2: &Permutation,
    p3: &Permutation,
    p4: &Permutation,
    p5: &Permutation,
) -> (composite: Permutation)
    requires
        p1.wf(),
        p2.wf(),
        p3.wf(),
        p4.wf(),
        p5.wf(),
    ensures
        composite.wf(),
        composite@ == p1@.compose(p2@).compose(p3@).compose(p4@).compose(p5@),
{
    compose(&compose_4(p1, p2, p3, p4), p5)
}

/// The composite of six permutations, taken from the left.
pub fn compose_6(
    p1: &Permutation,
    p2: &Permutation,
    p3: &Permutation,
    p4: &Permutation,
    p5: &Permutation,
    p6: &Permutation,
) -> (composite: Permutation)
    requires
        p1.wf(),
        p2.wf(),
        p3.wf(),
        p4.wf(),
        p5.wf(),
        p6.wf(),
    ensures
        composite.wf(),
        composite@ == p1@.compose(p2@).compose(p3@).compose(p4@).compose(p5@).compose(p6@),
{
    compose(&compose_5(p1, p2, p3, p4, p5), p6)
}

/// The composite of seven permutations, taken from the left.
pub fn compose_7(
    p1: &Permutation,
    p2: &Permutation,
    p3: &Permutation,
    p4: &Permutation,
    p5: &Permutation,
    p6: &Permutation,
    p7: &Permutation,
) -> (composite: Permutation)
    requires
        p1.wf(),
        p2.wf(),
        p3.wf(),
        p4.wf(),
        p5.wf(),
        p6.wf(),
        p7.wf(),
    ensures
        composite.wf(),
        composite@ == p1@.compose(p2@).compose(p3@).compose(p4@).compose(p5@).compose(
            p6@,
        ).compose(p7@),
{
    compose(&compose_6(p1, p2, p3, p4, p5, p6), p7)
}

/// The composite of eight permutations, taken from the left.
pub fn compose_8(
    p1: &Permutation,
    p2: &Permutation,
    p3: &Permutation,
    p4: &Permutation,
    p5: &Permutation,
    p6: &Permutation,
    p7: &Permutation,
    p8: &Permutation,
) -> (composite: Permutation)
    requires
        p1.wf(),
        p2.wf(),
        p3.wf(),
        p4.wf(),
        p5.wf(),
        p6.wf(),
        p7.wf(),
        p8.wf(),
    ensures
        composite.wf(),
        composite@ == p1@.compose(p2@).compose(p3@).compose(p4@).compose(p5@).compose(
            p6@,
        ).compose(p7@).compose(p8@),
{
    compose(&compose_7(p1, p2, p3, p4, p5, p6, p7), p8)
}

/// The composite of nine permutations, taken from the left.
pub fn compose_9(
    p1: &Permutation,
    p2: &Permutation,
    p3: &Permutation,
    p4: &Permutation,
    p5: &Permutation,
    p6: &Permutation,
    p7: &Permutation,
    p8: &Permutation,
    p9: &Permutation,
) -> (composite: Permutation)
    requires
        p1.wf(),
        p2.wf(),
        p3.wf(),
        p4.wf(),
        p5.wf(),
        p6.wf(),
        p7.wf(),
        p8.wf(),
        p9.wf(),
    ensures
        composite.wf(),
        composite@ == p1@.compose(p2@).compose(p3@).compose(p4@).compose(p5@).compose(
            p6@,
        ).compose(p7@).compose(p8@).compose(p9@),
{
    compose(&compose_8(p1, p2, p3, p4, p5, p6, p7, p8), p9)
}

/// The composite of a list of permutations, taken from the left. The empty
/// list gives the identity, a list of one a copy of its permutation.
pub fn compose_n(permutations: Vec<&Permutation>) -> (composite: Permutation)
    requires
        forall|i: int| 0 <= i < permutations@.len() ==> (#[trigger] permutations@[i]).wf(),
    ensures
        composite.wf(),
        composite@ == compose_all(views_of(permutations@)),
{
    let ghost views = views_of(permutations@);
    if permutations.len() == 0 {
        return Permutation::identity();
    }
    let first_element = permutations[0];
    assert(first_element.wf());
    let first_one_line = first_element.one_line_permutation.clone();
    assert(first_one_line@ =~= first_element.one_line_permutation@);
    let mut result = Permutation::create_permutation_one_line(
        first_element.name.clone(),
        first_one_line,
    );
    assert(views.take(1) =~= seq![views[0]]);
    let mut i: usize = 1;
    while i < permutations.len()
        invariant
            1 <= i <= permutations@.len(),
            views == views_of(permutations@),
            forall|j: int| 0 <= j < permutations@.len() ==> (#[trigger] permutations@[j]).wf(),
            result.wf(),
            result@ == compose_all(views.take(i as int)),
        decreases permutations@.len() - i,
    {
        let permutation = permutations[i];
        assert(permutation.wf());
        proof {
            let longer = views.take(i + 1);
            assert(longer.drop_last() =~= views.take(i as int));
            assert(longer.last() == permutation@);
        }
        result = compose(&result, permutation);
        i += 1;
    }
    assert(views.take(i as int) =~= views);
    result
}

impl Permutation {
    /// The array is a bijection and the cached fields describe it.
    pub open spec fn wf(&self) -> bool {
        self@.wf()
    }

    /// The identity: label `id`, empty array, degree 0.
    pub fn identity() -> (id: Self)
        ensures
            id.wf(),
            id@ == PermutationView::identity(),
    {
        let name = String::from_str("id");
        Permutation::create_permutation_one_line(name, Vec::new())
    }

    /// The permutation with this label whose one-line array is
    /// `one_line_notation`, stored as it is.
    pub fn create_permutation_one_line(name: String, one_line_notation: Vec<usize>) -> (p: Self)
        requires
            is_bijection(one_line_notation@),
        ensures
            p.wf(),
            p@ == PermutationView::from_one_line(name@, one_line_notation@),
    {
        let flag = is_identity(&one_line_notation);
        let degree = internal_degree(&one_line_notation);
        Permutation {
            name,
            is_identity: flag,
            internal_degree: degree,
            one_line_permutation: one_line_notation,
        }
    }

    /// One more than the largest moved index, or 0 for a permutation that
    /// moves nothing.
    pub fn degree(&self) -> (d: usize)
        requires
            self.wf(),
        ensures
            d == self@.degree,
            d == degree_of(self@.one_line),
    {
        internal_degree(&self.one_line_permutation)
    }

    /// The image of `i`: the array's entry below the degree, `i` itself from
    /// the degree on.
    pub fn apply(&self, i: usize) -> (image_of_i: usize)
        requires
            self.wf(),
        ensures
            image_of_i == self@.image(i as int),
    {
        proof {
            lemma_degree_of(self@.one_line);
        }
        if i < self.internal_degree {
            self.one_line_permutation[i]
        } else {
            i
        }
    }

    /// `compose(self, rhs)`.
    pub fn compose(&self, rhs: &Permutation) -> (composite: Self)
        requires
            self.wf(),
            rhs.wf(),
        ensures
            composite.wf(),
            composite@ == self@.compose(rhs@),
    {
        compose(self, rhs)
    }

    /// The permutation that `cycles` writes in cycle notation, under this
    /// label. Fails when a cycle has exactly one entry.
    pub fn create_permutation(name: String, cycles: Vec<Vec<usize>>) -> (created: Result<
        Self,
        ConstructionError,
    >)
        requires
            disjoint_cycles(cycles_view(&cycles)),
            cycles_bound(cycles_view(&cycles)) <= usize::MAX,
        ensures
            match created {
                Ok(p) => {
                    &&& !has_degenerate_cycle(cycles_view(&cycles))
                    &&& p.wf()
                    &&& p@ == PermutationView::from_cycles(name@, cycles_view(&cycles))
                },
                Err(error) => first_degenerate_cycle(cycles_view(&cycles), error.cycle as int),
            },
    {
        match convert_cycles_to_one_line(&cycles) {
            Ok(one_line_notation) => Ok(
                Permutation::create_permutation_one_line(name, one_line_notation),
            ),
            Err(error) => Err(error),
        }
    }

    /// The composite of the list, taken from the left, under this label.
    pub fn create_permutation_from_composition(name: String, permutations: Vec<&Permutation>) -> (p:
        Self)
        requires
            forall|i: int| 0 <= i < permutations@.len() ==> (#[trigger] permutations@[i]).wf(),
        ensures
            p.wf(),
            p@ == compose_all(views_of(permutations@)).relabel(name@),
    {
        let mut p = compose_n(permutations);
        p.set_name(name);
        p
    }

    fn set_name(&mut self, new_name: String)
        ensures
            final(self)@ == old(self)@.relabel(new_name@),
    {
        self.name = new_name;
    }

    /// The inverse. A permutation that moves nothing gives its own label with
    /// the empty array; any other gives its label followed by `i`, with an
    /// array of the same length that holds `i` at index `array[i]`.
    pub fn inverse(&self) -> (inv: Self)
        requires
            self.wf(),
        ensures
            inv.wf(),
            inv@ == self@.inverse(),
    {
        if self.is_identity {
            return Permutation::create_permutation_one_line(self.name.clone(), Vec::new());
        }
        let ghost a = self.one_line_permutation@;
        let n = self.one_line_permutation.len();
        let mut inv_one_line: Vec<usize> = vec![0; n];
        let mut i: usize = 0;
        while i < n
            invariant
                a == self.one_line_permutation@,
                is_bijection(a),
                n == a.len(),
                i <= n,
                inv_one_line@.len() == n,
                forall|j: int| 0 <= j < i ==> inv_one_line@[(#[trigger] a[j]) as int] == j,
            decreases n - i,
        {
            let target = self.one_line_permutation[i];
            let ghost before = inv_one_line@;
            inv_one_line.set(target, i);
            proof {
                assert forall|j: int| 0 <= j < i + 1 implies inv_one_line@[(
                #[trigger] a[j]) as int] == j by {
                    if j < i {
                        assert(before[a[j] as int] == j);
                    }
                }
            }
            i += 1;
        }
        proof {
            lemma_bijection_onto(a);
            lemma_inverse(a);
            assert forall|j: int| 0 <= j < n implies inv_one_line@[j] == inverse_spec(a)[j] by {
                assert(a.contains(j as usize));
                let k = a.index_of(j as usize);
                assert(inv_one_line@[a[k] as int] == k);
            }
            assert(inv_one_line@ =~= inverse_spec(a));
        }
        Permutation::create_permutation_one_line(self.name.clone().concat("i"), inv_one_line)
    }

    /// The conjugate of `rhs` by this permutation: `compose_3` of `self`,
    /// `rhs` and the inverse of `self`.
    pub fn conjugate(&self, rhs: &Self) -> (conjugated: Self)
        requires
            self.wf(),
            rhs.wf(),
        ensures
            conjugated.wf(),
            conjugated@ == self@.conjugate(rhs@),
    {
        compose_3(self, rhs, &self.inverse())
    }

    /// The commutator of this permutation and `rhs`: `compose_4` of `rhs`,
    /// `self`, the inverse of `rhs` and the inverse of `self`.
    pub fn commutator(&self, rhs: &Self) -> (commuted: Self)
        requires
            self.wf(),
            rhs.wf(),
        ensures
            commuted.wf(),
            commuted@ == self@.commutator(rhs@),
    {
        compose_4(rhs, self, &rhs.inverse(), &self.inverse())
    }

    /// The cycle notation: the orbits of two positions or more, each written
    /// from its smallest position, in the order of those positions.
    pub fn to_cycles(&self) -> (cycles: Vec<Vec<usize>>)
        requires
            self.wf(),
        ensures
            is_cycle_decomposition(self@.one_line, cycles_view(&cycles)),
            cycles_view(&cycles) == cycle_notation(self@.one_line),
    {
        convert_one_line_to_cycles(&self.one_line_permutation)
    }

    /// The one-line array, as it is stored.
    pub fn one_line(&self) -> (array: &Vec<usize>)
        ensures
            array@ == self@.one_line,
    {
        &self.one_line_permutation
    }

    /// Whether the permutation moves nothing.
    pub fn is_identity(&self) -> (flag: bool)
        ensures
            flag == self@.is_identity,
    {
        self.is_identity
    }

    /// The label.
    pub fn print(&self) -> (text: String)
        ensures
            text@ == self@.label,
    {
        self.name.clone()
    }

    /// The cycle notation as text, such as `[[1, 4, 3, 2], [13, 42, 31, 24]]`.
    pub fn print_cycles(&self) -> (text: String)
        requires
            self.wf(),
        ensures
            text@ == lists_text(cycle_notation(self@.one_line)),
    {
        let cycles = convert_one_line_to_cycles(&self.one_line_permutation);
        write_lists(&cycles)
    }

    /// The one-line array as text, such as `[0, 4, 1, 2, 3]`.
    pub fn print_one_line(&self) -> (text: String)
        ensures
            text@ == numbers_text(self@.one_line),
    {
        write_numbers(&self.one_line_permutation)
    }

    /// Whether the two permutations have the same label, the same array and
    /// the same cached fields.
    pub fn equals(&self, other: &Permutation) -> (same: bool)
        ensures
            same == (self@ == other@),
    {
        if self.name != other.name {
            return false;
        }
        if self.is_identity != other.is_identity || self.internal_degree != other.internal_degree {
            return false;
        }
        if self.one_line_permutation.len() != other.one_line_permutation.len() {
            return false;
        }
        let mut i: usize = 0;
        while i < self.one_line_permutation.len()
            invariant
                i <= self.one_line_permutation@.len(),
                self.one_line_permutation@.len() == other.one_line_permutation@.len(),
                forall|j: int|
                    0 <= j < i ==> self.one_line_permutation@[j] == other.one_line_permutation@[j],
            decreases self.one_line_permutation@.len() - i,
        {
            if self.one_line_permutation[i] != other.one_line_permutation[i] {
                return false;
            }
            i += 1;
        }
        assert(self.one_line_permutation@ =~= other.one_line_permutation@);
        true
    }
}

impl Clone for Permutation {
    /// A copy of the permutation.
    fn clone(&self) -> (copy: Self)
        ensures
            copy@ == self@,
    {
        let one_line = self.one_line_permutation.clone();
        assert(one_line@ =~= self.one_line_permutation@);
        Permutation {
            name: self.name.clone(),
            one_line_permutation: one_line,
            is_identity: self.is_identity,
            internal_degree: self.internal_degree,
        }
    }
}

impl PartialEq for Permutation {
    fn eq(&self, other: &Self) -> (same: bool) {
        self.equals(other)
    }
}

impl PartialEqSpecImpl for Permutation {
    open spec fn obeys_eq_spec() -> bool {
        true
    }

    open spec fn eq_spec(&self, other: &Self) -> bool {
        self@ == other@
    }
}

} // verus!
