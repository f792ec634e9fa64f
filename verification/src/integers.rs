//! Arithmetic that is exact on integers up to a bound, and what it makes of matrices of
//! integers. Single precision is one (up to 2 to the power 24), and so is fixed point.

use crate::fixed::{quotient_down, saturated, Fixed, ONE};
use crate::matrix::{adjugate, determinant, inverse, minor, row_at, singular, transformed};
use crate::scalar::{nought, unit, Arith};
use vstd::arithmetic::mul::{
    lemma_mul_is_associative, lemma_mul_is_commutative, lemma_mul_is_distributive_add,
    lemma_mul_is_distributive_sub_other_way, lemma_mul_unary_negation,
};
use vstd::prelude::*;

verus! {

/// Arithmetic on the integers, as specifications have it.
#[verifier::ext_equal]
pub struct Integer {
    pub value: int,
}

impl Arith for Integer {
    open spec fn plus(self, rhs: Self) -> Self {
        Integer { value: self.value + rhs.value }
    }

    open spec fn minus(self, rhs: Self) -> Self {
        Integer { value: self.value - rhs.value }
    }

    open spec fn times(self, rhs: Self) -> Self {
        Integer { value: self.value * rhs.value }
    }

    open spec fn over(self, rhs: Self) -> Self {
        Integer { value: self.value / rhs.value }
    }

    open spec fn same(self, rhs: Self) -> bool {
        self.value == rhs.value
    }

    open spec fn below(self, rhs: Self) -> bool {
        self.value < rhs.value
    }

    open spec fn reaches(self, rhs: Self) -> bool {
        self.value >= rhs.value
    }

    open spec fn of_index(n: usize) -> Self {
        Integer { value: n as int }
    }

    open spec fn index(self) -> usize {
        self.value as usize
    }
}

/// The integer lies between `-n` and `n`.
pub open spec fn within(a: int, n: int) -> bool {
    -n <= a <= n
}

/// The scalars that `stands` relates to integers are added, subtracted and multiplied
/// exactly where the result lies within `n`, divided by 1 and -1, compared, and taken for
/// indices, as the integers are. More than one scalar may stand for an integer, as 0 and
/// -0 of floating point do.
#[verifier::opaque]
pub open spec fn exact_within<A: Arith>(stands: spec_fn(A, int) -> bool, n: int) -> bool {
    &&& forall|x: A, y: A, a: int, b: int|
        #![trigger x.plus(y), stands(x, a), stands(y, b)]
        stands(x, a) && stands(y, b) && within(a + b, n) ==> stands(x.plus(y), a + b)
    &&& forall|x: A, y: A, a: int, b: int|
        #![trigger x.minus(y), stands(x, a), stands(y, b)]
        stands(x, a) && stands(y, b) && within(a - b, n) ==> stands(x.minus(y), a - b)
    &&& forall|x: A, y: A, a: int, b: int|
        #![trigger x.times(y), stands(x, a), stands(y, b)]
        stands(x, a) && stands(y, b) && within(a * b, n) ==> stands(x.times(y), a * b)
    &&& forall|x: A, y: A, a: int|
        #![trigger x.over(y), stands(x, a), stands(y, 1)]
        stands(x, a) && stands(y, 1) && within(a, n) ==> stands(x.over(y), a)
    &&& forall|x: A, y: A, a: int|
        #![trigger x.over(y), stands(x, a), stands(y, -1)]
        stands(x, a) && stands(y, -1) && within(a, n) ==> stands(x.over(y), -a)
    &&& forall|x: A, y: A, a: int, b: int|
        #![trigger stands(x, a), stands(y, b)]
        stands(x, a) && stands(y, b) ==> {
            &&& x.same(y) == (a == b)
            &&& x.below(y) == (a < b)
            &&& x.reaches(y) == (a >= b)
        }
    &&& forall|i: usize| i <= n ==> stands(#[trigger] A::of_index(i), i as int)
    &&& forall|x: A, a: int| #[trigger] stands(x, a) && 0 <= a <= n ==> x.index() == a
}

pub proof fn lemma_plus<A: Arith>(
    stands: spec_fn(A, int) -> bool,
    n: int,
    x: A,
    y: A,
    a: int,
    b: int,
)
    requires
        exact_within(stands, n),
        stands(x, a),
        stands(y, b),
        within(a + b, n),
    ensures
        stands(x.plus(y), a + b),
{
    reveal(exact_within);
}

pub proof fn lemma_minus<A: Arith>(
    stands: spec_fn(A, int) -> bool,
    n: int,
    x: A,
    y: A,
    a: int,
    b: int,
)
    requires
        exact_within(stands, n),
        stands(x, a),
        stands(y, b),
        within(a - b, n),
    ensures
        stands(x.minus(y), a - b),
{
    reveal(exact_within);
}

pub proof fn lemma_times<A: Arith>(
    stands: spec_fn(A, int) -> bool,
    n: int,
    x: A,
    y: A,
    a: int,
    b: int,
)
    requires
        exact_within(stands, n),
        stands(x, a),
        stands(y, b),
        within(a * b, n),
    ensures
        stands(x.times(y), a * b),
{
    reveal(exact_within);
}

pub proof fn lemma_over<A: Arith>(
    stands: spec_fn(A, int) -> bool,
    n: int,
    x: A,
    y: A,
    a: int,
    b: int,
)
    requires
        exact_within(stands, n),
        stands(x, a),
        stands(y, b),
        b == 1 || b == -1,
        within(a, n),
    ensures
        stands(x.over(y), a * b),
{
    reveal(exact_within);
    assert(a * 1 == a && a * (-1) == -a) by (nonlinear_arith);
}

pub proof fn lemma_compares<A: Arith>(
    stands: spec_fn(A, int) -> bool,
    n: int,
    x: A,
    y: A,
    a: int,
    b: int,
)
    requires
        exact_within(stands, n),
        stands(x, a),
        stands(y, b),
    ensures
        x.same(y) == (a == b),
        x.below(y) == (a < b),
        x.reaches(y) == (a >= b),
{
    reveal(exact_within);
}

pub proof fn lemma_index<A: Arith>(stands: spec_fn(A, int) -> bool, n: int, i: usize)
    requires
        exact_within(stands, n),
        i <= n,
    ensures
        stands(A::of_index(i), i as int),
{
    reveal(exact_within);
}

pub proof fn lemma_of_index<A: Arith>(stands: spec_fn(A, int) -> bool, n: int, x: A, a: int)
    requires
        exact_within(stands, n),
        stands(x, a),
        0 <= a <= n,
    ensures
        x.index() == a,
{
    reveal(exact_within);
}

/// The entries of `m` stand for those of `k`, which lie within `b`.
pub open spec fn stands_for<A: Arith>(
    stands: spec_fn(A, int) -> bool,
    m: Seq<A>,
    k: Seq<Integer>,
    b: int,
) -> bool {
    &&& m.len() == 9
    &&& k.len() == 9
    &&& forall|i: int|
        #![trigger m[i]]
        #![trigger k[i]]
        0 <= i < 9 ==> stands(m[i], k[i].value) && within(k[i].value, b)
}

pub proof fn lemma_product_within(x: int, y: int, a: int, b: int)
    requires
        within(x, a),
        within(y, b),
    ensures
        within(x * y, a * b),
{
    assert(-(a * b) <= x * y <= a * b) by (nonlinear_arith)
        requires
            -a <= x <= a,
            -b <= y <= b,
    ;
}

proof fn lemma_minor_exact<A: Arith>(
    stands: spec_fn(A, int) -> bool,
    n: int,
    b: int,
    m: Seq<A>,
    k: Seq<Integer>,
    i: (int, int, int, int),
)
    requires
        exact_within(stands, n),
        stands_for(stands, m, k, b),
        2 * (b * b) <= n,
        0 <= i.0 < 9,
        0 <= i.1 < 9,
        0 <= i.2 < 9,
        0 <= i.3 < 9,
    ensures
        stands(minor(m, i.0, i.1, i.2, i.3), minor(k, i.0, i.1, i.2, i.3).value),
        within(minor(k, i.0, i.1, i.2, i.3).value, 2 * (b * b)),
{
    let (w, x, y, z) = (k[i.0].value, k[i.1].value, k[i.2].value, k[i.3].value);
    assert(stands(m[i.0], w) && stands(m[i.1], x) && stands(m[i.2], y) && stands(m[i.3], z));
    lemma_product_within(w, x, b, b);
    lemma_product_within(y, z, b, b);
    lemma_times(stands, n, m[i.0], m[i.1], w, x);
    lemma_times(stands, n, m[i.2], m[i.3], y, z);
    lemma_minus(stands, n, m[i.0].times(m[i.1]), m[i.2].times(m[i.3]), w * x, y * z);
}

/// In arithmetic that is exact on integers, the adjugate of a matrix of integers stands
/// for the adjugate over the integers.
pub proof fn adjugate_exact_law<A: Arith>(
    stands: spec_fn(A, int) -> bool,
    n: int,
    b: int,
    m: Seq<A>,
    k: Seq<Integer>,
)
    requires
        exact_within(stands, n),
        stands_for(stands, m, k, b),
        2 * (b * b) <= n,
    ensures
        stands_for(stands, adjugate(m), adjugate(k), 2 * (b * b)),
{
    lemma_minor_exact(stands, n, b, m, k, (4, 8, 5, 7));
    lemma_minor_exact(stands, n, b, m, k, (2, 7, 1, 8));
    lemma_minor_exact(stands, n, b, m, k, (1, 5, 2, 4));
    lemma_minor_exact(stands, n, b, m, k, (5, 6, 3, 8));
    lemma_minor_exact(stands, n, b, m, k, (0, 8, 2, 6));
    lemma_minor_exact(stands, n, b, m, k, (2, 3, 0, 5));
    lemma_minor_exact(stands, n, b, m, k, (3, 7, 4, 6));
    lemma_minor_exact(stands, n, b, m, k, (1, 6, 0, 7));
    lemma_minor_exact(stands, n, b, m, k, (0, 4, 1, 3));
}

/// In arithmetic that is exact on integers, the determinant of a matrix of integers
/// stands for the determinant over the integers, and is 0 where that is 0.
pub proof fn determinant_exact_law<A: Arith>(
    stands: spec_fn(A, int) -> bool,
    n: int,
    b: int,
    m: Seq<A>,
    k: Seq<Integer>,
)
    requires
        exact_within(stands, n),
        stands_for(stands, m, k, b),
        b >= 1,
        6 * (b * b * b) <= n,
    ensures
        stands(determinant(m), determinant(k).value),
        singular(m) <==> determinant(k).value == 0,
{
    let c = 2 * (b * b);
    assert(b * c == 2 * (b * b * b) && c <= 6 * (b * b * b) && 0 <= b * b * b) by (nonlinear_arith)
        requires
            c == 2 * (b * b),
            b >= 1,
    ;
    let (p, q, r) = (minor(m, 4, 8, 5, 7), minor(m, 3, 8, 5, 6), minor(m, 3, 7, 4, 6));
    let (s, t, u) = (
        minor(k, 4, 8, 5, 7).value,
        minor(k, 3, 8, 5, 6).value,
        minor(k, 3, 7, 4, 6).value,
    );
    lemma_minor_exact(stands, n, b, m, k, (4, 8, 5, 7));
    lemma_minor_exact(stands, n, b, m, k, (3, 8, 5, 6));
    lemma_minor_exact(stands, n, b, m, k, (3, 7, 4, 6));
    let (x, y, z) = (k[0].value, k[1].value, k[2].value);
    assert(stands(m[0], x) && stands(m[1], y) && stands(m[2], z));
    lemma_product_within(x, s, b, c);
    lemma_product_within(y, t, b, c);
    lemma_product_within(z, u, b, c);
    lemma_times(stands, n, m[0], p, x, s);
    lemma_times(stands, n, m[1], q, y, t);
    lemma_times(stands, n, m[2], r, z, u);
    lemma_minus(stands, n, m[0].times(p), m[1].times(q), x * s, y * t);
    lemma_plus(
        stands,
        n,
        m[0].times(p).minus(m[1].times(q)),
        m[2].times(r),
        x * s - y * t,
        z * u,
    );
    lemma_index::<A>(stands, n, 0);
    lemma_compares(stands, n, determinant(m), nought(), determinant(k).value, 0);
}

/// The inverse over the integers of a matrix whose determinant is 1 or -1.
pub open spec fn integer_inverse(k: Seq<Integer>) -> Seq<Integer> {
    Seq::new(9, |i: int| adjugate(k)[i].times(determinant(k)))
}

/// In arithmetic that is exact on integers, the inverse of a matrix of integers whose
/// determinant is 1 or -1 stands for the inverse over the integers.
pub proof fn inverse_exact_law<A: Arith>(
    stands: spec_fn(A, int) -> bool,
    n: int,
    b: int,
    m: Seq<A>,
    k: Seq<Integer>,
)
    requires
        exact_within(stands, n),
        stands_for(stands, m, k, b),
        b >= 1,
        6 * (b * b * b) <= n,
        determinant(k).value == 1 || determinant(k).value == -1,
    ensures
        !singular(m),
        stands_for(stands, inverse(m), integer_inverse(k), 2 * (b * b)),
{
    let c = 2 * (b * b);
    let d = determinant(k).value;
    assert(c <= 6 * (b * b * b) && 1 <= 6 * (b * b * b)) by (nonlinear_arith)
        requires
            c == 2 * (b * b),
            b >= 1,
    ;
    determinant_exact_law(stands, n, b, m, k);
    adjugate_exact_law(stands, n, b, m, k);
    lemma_index::<A>(stands, n, 1);
    let r = unit::<A>().over(determinant(m));
    lemma_over(stands, n, unit(), determinant(m), 1, d);
    assert(stands(r, d));
    assert forall|i: int| 0 <= i < 9 implies stands(
        inverse(m)[i],
        integer_inverse(k)[i].value,
    ) && within(integer_inverse(k)[i].value, c) by {
        let a = adjugate(k)[i].value;
        assert(stands(adjugate(m)[i], a) && within(a, c));
        lemma_product_within(a, d, c, 1);
        lemma_times(stands, n, adjugate(m)[i], r, a, d);
    }
}

/// Where a matrix of integers takes a pixel, row by row.
pub open spec fn integer_row(k: Seq<Integer>, row: int, x: int, y: int) -> int {
    k[row].value * x + k[row + 1].value * y + k[row + 2].value
}

/// A matrix of integers without perspective.
pub open spec fn affine(k: Seq<Integer>) -> bool {
    k[6].value == 0 && k[7].value == 0 && k[8].value == 1
}

/// The entries of `m` stand for those of `k`, a matrix of integers without perspective,
/// whose translation lies within `t` and whose other entries lie within `b`.
pub open spec fn affine_for<A: Arith>(
    stands: spec_fn(A, int) -> bool,
    m: Seq<A>,
    k: Seq<Integer>,
    b: int,
    t: int,
) -> bool {
    &&& m.len() == 9
    &&& k.len() == 9
    &&& affine(k)
    &&& forall|i: int|
        #![trigger m[i]]
        #![trigger k[i]]
        0 <= i < 9 ==> stands(m[i], k[i].value)
    &&& within(k[0].value, b) && within(k[1].value, b) && within(k[2].value, t)
    &&& within(k[3].value, b) && within(k[4].value, b) && within(k[5].value, t)
}

/// In arithmetic that is exact on integers, a matrix of integers without perspective
/// takes a pixel where it takes it over the integers.
pub proof fn point_exact_law<A: Arith>(
    stands: spec_fn(A, int) -> bool,
    n: int,
    b: int,
    t: int,
    m: Seq<A>,
    k: Seq<Integer>,
    x: usize,
    y: usize,
    s: int,
)
    requires
        exact_within(stands, n),
        affine_for(stands, m, k, b, t),
        x <= s,
        y <= s,
        b >= 1,
        n >= 1,
        2 * (b * s) + t <= n,
    ensures
        stands(
            transformed(A::of_index(x), A::of_index(y), m).0,
            integer_row(k, 0, x as int, y as int),
        ),
        stands(
            transformed(A::of_index(x), A::of_index(y), m).1,
            integer_row(k, 3, x as int, y as int),
        ),
        stands(row_at(m, 6, A::of_index(x), A::of_index(y)), 1),
{
    let (i, j) = (x as int, y as int);
    assert(k[2].value <= t && -t <= k[2].value);
    assert(s <= b * s) by (nonlinear_arith)
        requires
            b >= 1,
            s >= 0,
    ;
    lemma_product_within(k[0].value, i, b, s);
    lemma_product_within(k[1].value, j, b, s);
    lemma_product_within(k[3].value, i, b, s);
    lemma_product_within(k[4].value, j, b, s);
    assert(0 * i == 0 && 0 * j == 0) by (nonlinear_arith);
    lemma_row_exact(stands, n, m, k, 0, x, y);
    lemma_row_exact(stands, n, m, k, 3, x, y);
    lemma_row_exact(stands, n, m, k, 6, x, y);
    let (p, q) = (integer_row(k, 0, i, j), integer_row(k, 3, i, j));
    let w = row_at(m, 6, A::of_index(x), A::of_index(y));
    lemma_over(stands, n, row_at(m, 0, A::of_index(x), A::of_index(y)), w, p, 1);
    lemma_over(stands, n, row_at(m, 3, A::of_index(x), A::of_index(y)), w, q, 1);
    assert(p * 1 == p && q * 1 == q) by (nonlinear_arith);
}

proof fn lemma_row_exact<A: Arith>(
    stands: spec_fn(A, int) -> bool,
    n: int,
    m: Seq<A>,
    k: Seq<Integer>,
    row: int,
    x: usize,
    y: usize,
)
    requires
        exact_within(stands, n),
        0 <= row < 7,
        stands(m[row], k[row].value),
        stands(m[row + 1], k[row + 1].value),
        stands(m[row + 2], k[row + 2].value),
        x <= n,
        y <= n,
        within(k[row].value * x, n),
        within(k[row + 1].value * y, n),
        within(k[row].value * x + k[row + 1].value * y, n),
        within(integer_row(k, row, x as int, y as int), n),
    ensures
        stands(
            row_at(m, row, A::of_index(x), A::of_index(y)),
            integer_row(k, row, x as int, y as int),
        ),
{
    let (p, q, r) = (k[row].value, k[row + 1].value, k[row + 2].value);
    let (i, j) = (x as int, y as int);
    lemma_index::<A>(stands, n, x);
    lemma_index::<A>(stands, n, y);
    lemma_times(stands, n, m[row], A::of_index(x), p, i);
    lemma_times(stands, n, m[row + 1], A::of_index(y), q, j);
    lemma_plus(
        stands,
        n,
        m[row].times(A::of_index(x)),
        m[row + 1].times(A::of_index(y)),
        p * i,
        q * j,
    );
    lemma_plus(
        stands,
        n,
        m[row].times(A::of_index(x)).plus(m[row + 1].times(A::of_index(y))),
        m[row + 2],
        p * i + q * j,
        r,
    );
}

proof fn lemma_minor_stands<A: Arith>(
    stands: spec_fn(A, int) -> bool,
    n: int,
    m: Seq<A>,
    k: Seq<Integer>,
    i: (int, int, int, int),
)
    requires
        exact_within(stands, n),
        stands(m[i.0], k[i.0].value),
        stands(m[i.1], k[i.1].value),
        stands(m[i.2], k[i.2].value),
        stands(m[i.3], k[i.3].value),
        within(k[i.0].value * k[i.1].value, n),
        within(k[i.2].value * k[i.3].value, n),
        within(minor(k, i.0, i.1, i.2, i.3).value, n),
    ensures
        stands(minor(m, i.0, i.1, i.2, i.3), minor(k, i.0, i.1, i.2, i.3).value),
{
    let (w, x, y, z) = (k[i.0].value, k[i.1].value, k[i.2].value, k[i.3].value);
    lemma_times(stands, n, m[i.0], m[i.1], w, x);
    lemma_times(stands, n, m[i.2], m[i.3], y, z);
    lemma_minus(stands, n, m[i.0].times(m[i.1]), m[i.2].times(m[i.3]), w * x, y * z);
}

/// In arithmetic that is exact on integers, the inverse of a matrix of integers without
/// perspective, of determinant 1 or -1, stands for the inverse over the integers. It
/// needs no more room for its translation than twice the product of the two bounds.
pub proof fn affine_inverse_exact_law<A: Arith>(
    stands: spec_fn(A, int) -> bool,
    n: int,
    b: int,
    t: int,
    m: Seq<A>,
    k: Seq<Integer>,
)
    requires
        exact_within(stands, n),
        affine_for(stands, m, k, b, t),
        b >= 1,
        2 * (b * b) <= n,
        2 * (b * t) <= n,
        determinant(k).value == 1 || determinant(k).value == -1,
    ensures
        !singular(m),
        affine_for(stands, inverse(m), integer_inverse(k), b, 2 * (b * t)),
{
    let (p, q, r, u, v, w) = (
        k[0].value,
        k[1].value,
        k[2].value,
        k[3].value,
        k[4].value,
        k[5].value,
    );
    let d = determinant(k).value;
    let z = integer_inverse(k);
    assert(within(p, b) && within(q, b) && within(r, t));
    assert(within(u, b) && within(v, b) && within(w, t));
    assert(b <= b * b) by (nonlinear_arith)
        requires
            b >= 1,
    ;
    lemma_product_within(p, v, b, b);
    lemma_product_within(q, u, b, b);
    lemma_product_within(q, w, b, t);
    lemma_product_within(v, r, b, t);
    lemma_product_within(u, r, b, t);
    lemma_product_within(p, w, b, t);
    lemma_mul_is_commutative(v, r);
    lemma_mul_is_commutative(u, r);
    assert(p * 0 == 0 && q * 0 == 0 && r * 0 == 0 && u * 0 == 0 && v * 0 == 0 && w * 0 == 0)
        by (nonlinear_arith);
    assert(p * 1 == p && q * 1 == q && u * 1 == u && v * 1 == v) by (nonlinear_arith);
    lemma_affine_inverse(k);
    lemma_minor_stands(stands, n, m, k, (4, 8, 5, 7));
    lemma_minor_stands(stands, n, m, k, (2, 7, 1, 8));
    lemma_minor_stands(stands, n, m, k, (1, 5, 2, 4));
    lemma_minor_stands(stands, n, m, k, (5, 6, 3, 8));
    lemma_minor_stands(stands, n, m, k, (0, 8, 2, 6));
    lemma_minor_stands(stands, n, m, k, (2, 3, 0, 5));
    lemma_minor_stands(stands, n, m, k, (3, 7, 4, 6));
    lemma_minor_stands(stands, n, m, k, (1, 6, 0, 7));
    lemma_minor_stands(stands, n, m, k, (0, 4, 1, 3));
    lemma_minor_stands(stands, n, m, k, (3, 8, 5, 6));
    let (x, y, o) = (minor(m, 4, 8, 5, 7), minor(m, 3, 8, 5, 6), minor(m, 3, 7, 4, 6));
    assert(stands(m[0], p) && stands(m[1], q) && stands(m[2], r));
    lemma_times(stands, n, m[0], x, p, v);
    lemma_times(stands, n, m[1], y, q, u);
    lemma_times(stands, n, m[2], o, r, 0);
    lemma_minus(stands, n, m[0].times(x), m[1].times(y), p * v, q * u);
    lemma_plus(stands, n, m[0].times(x).minus(m[1].times(y)), m[2].times(o), p * v - q * u, 0);
    assert(stands(determinant(m), d));
    lemma_index::<A>(stands, n, 0);
    lemma_index::<A>(stands, n, 1);
    lemma_compares(stands, n, determinant(m), nought(), d, 0);
    let c = unit::<A>().over(determinant(m));
    lemma_over(stands, n, unit(), determinant(m), 1, d);
    assert(stands(c, d));
    lemma_signed(v, d, 0);
    lemma_signed(-q, d, 0);
    lemma_signed(q * w - r * v, d, 0);
    lemma_signed(-u, d, 0);
    lemma_signed(p, d, 0);
    lemma_signed(r * u - p * w, d, 0);
    lemma_signed(d, d, 0);
    assert forall|i: int| 0 <= i < 9 implies stands(#[trigger] inverse(m)[i], z[i].value) by {
        let a = adjugate(k)[i].value;
        assert(stands(adjugate(m)[i], a) && within(a, n));
        lemma_signed(a, d, 0);
        lemma_times(stands, n, adjugate(m)[i], c, a, d);
    }
}

proof fn lemma_spread(r: int, a: int, b: int, c: int, x: int, y: int)
    ensures
        r * (a * x + b * y + c) == (r * a) * x + (r * b) * y + r * c,
{
    lemma_mul_is_distributive_add(r, a * x + b * y, c);
    lemma_mul_is_distributive_add(r, a * x, b * y);
    lemma_mul_is_associative(r, a, x);
    lemma_mul_is_associative(r, b, y);
}

proof fn lemma_affine_inverse(k: Seq<Integer>)
    requires
        k.len() == 9,
        affine(k),
    ensures
        ({
            let d = k[0].value * k[4].value - k[1].value * k[3].value;
            let q = integer_inverse(k);
            &&& determinant(k).value == d
            &&& q[0].value == k[4].value * d
            &&& q[1].value == (-k[1].value) * d
            &&& q[2].value == (k[1].value * k[5].value - k[2].value * k[4].value) * d
            &&& q[3].value == (-k[3].value) * d
            &&& q[4].value == k[0].value * d
            &&& q[5].value == (k[2].value * k[3].value - k[0].value * k[5].value) * d
            &&& q[6].value == 0
            &&& q[7].value == 0
            &&& q[8].value == d * d
        }),
{
    let (a, b, c, d, e, f) = (
        k[0].value,
        k[1].value,
        k[2].value,
        k[3].value,
        k[4].value,
        k[5].value,
    );
    assert(a * 0 == 0 && b * 0 == 0 && c * 0 == 0 && d * 0 == 0 && e * 0 == 0 && f * 0 == 0)
        by (nonlinear_arith);
    assert(a * 1 == a && b * 1 == b && d * 1 == d && e * 1 == e) by (nonlinear_arith);
    let t = a * e - b * d;
    assert(0 * t == 0) by (nonlinear_arith);
    assert(determinant(k).value == t);
}

/// The inverse over the integers of a matrix without perspective, of determinant 1 or -1,
/// is one again, and takes the image of a pixel back to the pixel.
pub proof fn integer_inverse_law(k: Seq<Integer>, x: int, y: int)
    requires
        k.len() == 9,
        affine(k),
        determinant(k).value == 1 || determinant(k).value == -1,
    ensures
        affine(integer_inverse(k)),
        determinant(integer_inverse(k)).value == determinant(k).value,
        integer_row(integer_inverse(k), 0, integer_row(k, 0, x, y), integer_row(k, 3, x, y)) == x,
        integer_row(integer_inverse(k), 3, integer_row(k, 0, x, y), integer_row(k, 3, x, y)) == y,
{
    let q = integer_inverse(k);
    let (a, b, c, d, e, f) = (
        k[0].value,
        k[1].value,
        k[2].value,
        k[3].value,
        k[4].value,
        k[5].value,
    );
    let t = a * e - b * d;
    lemma_affine_inverse(k);
    assert(t * t == 1) by (nonlinear_arith)
        requires
            t == 1 || t == -1,
    ;
    lemma_affine_inverse(q);
    lemma_signed(e, t, a * t);
    lemma_signed(e, t, a);
    lemma_signed(a, t, 0);
    lemma_mul_is_commutative(e, a);
    lemma_signed(-b, t, (-d) * t);
    lemma_signed(-d, t, 0);
    lemma_signed(b, -1, d);
    lemma_signed(b, -1, -d);
    assert((e * t) * (a * t) == a * e);
    assert(((-b) * t) * ((-d) * t) == b * d);
    let (u, v) = (a * x + b * y + c, d * x + e * y + f);
    let (ea, bd) = (e * a, b * d);
    lemma_spread(e, a, b, c, x, y);
    lemma_spread(b, d, e, f, x, y);
    lemma_spread(d, a, b, c, x, y);
    lemma_spread(a, d, e, f, x, y);
    lemma_mul_is_commutative(a, e);
    lemma_mul_is_commutative(e, b);
    lemma_mul_is_commutative(d, b);
    lemma_mul_is_commutative(d, a);
    lemma_mul_is_commutative(e, c);
    lemma_mul_is_commutative(d, c);
    lemma_mul_is_distributive_sub_other_way(x, ea, bd);
    lemma_mul_is_distributive_sub_other_way(y, ea, bd);
    let (g, h) = (b * f - c * e, c * d - a * f);
    lemma_signed(e, t, u);
    lemma_signed(-b, t, v);
    lemma_signed(-d, t, u);
    lemma_signed(a, t, v);
    lemma_signed(b, -1, v);
    lemma_signed(d, -1, u);
    lemma_signed(g, t, 0);
    lemma_signed(h, t, 0);
    lemma_signed(x, t, 0);
    lemma_signed(y, t, 0);
    lemma_mul_is_commutative(t, x);
    lemma_mul_is_commutative(t, y);
    assert(e * u - b * v + g == t * x);
    assert(a * v - d * u + h == t * y);
}

/// A factor of 1 or -1 keeps the sign or changes it.
proof fn lemma_signed(p: int, t: int, u: int)
    requires
        t == 1 || t == -1,
    ensures
        p * t == (if t == 1 {
            p
        } else {
            -p
        }),
        (p * t) * u == (if t == 1 {
            p * u
        } else {
            -(p * u)
        }),
        (-p) * u == -(p * u),
        p * (-u) == -(p * u),
{
    lemma_mul_unary_negation(p, u);
    assert(p * 1 == p && p * (-1) == -p) by (nonlinear_arith);
}

/// The fixed-point number is the integer.
pub open spec fn fixed_stands() -> spec_fn(Fixed, int) -> bool {
    |x: Fixed, a: int| x.raw == a * ONE
}

/// Fixed point is exact on integers that have no more than fifteen bits.
pub proof fn fixed_exact_law()
    ensures
        exact_within(fixed_stands(), 32767),
{
    reveal(exact_within);
    let f = fixed_stands();
    assert forall|x: Fixed, y: Fixed, a: int, b: int|
        #![trigger x.times(y), f(x, a), f(y, b)]
        f(x, a) && f(y, b) && within(a * b, 32767) implies f(x.times(y), a * b) by {
        lemma_fixed_times(x, y, a, b);
    }
    assert forall|x: Fixed, y: Fixed, a: int|
        #![trigger x.over(y), f(x, a), f(y, 1)]
        f(x, a) && f(y, 1) && within(a, 32767) implies f(x.over(y), a) by {
        lemma_fixed_over(x, y, a, 1);
    }
    assert forall|x: Fixed, y: Fixed, a: int|
        #![trigger x.over(y), f(x, a), f(y, -1)]
        f(x, a) && f(y, -1) && within(a, 32767) implies f(x.over(y), -a) by {
        lemma_fixed_over(x, y, a, -1);
    }
}

proof fn lemma_fixed_times(x: Fixed, y: Fixed, a: int, b: int)
    requires
        x.raw == a * ONE,
        y.raw == b * ONE,
        within(a * b, 32767),
    ensures
        x.times(y).raw == (a * b) * ONE,
{
    let p = a * b;
    assert(x.raw * y.raw == (p * ONE) * ONE) by (nonlinear_arith)
        requires
            x.raw == a * ONE,
            y.raw == b * ONE,
            p == a * b,
    ;
    let q = p * ONE;
    assert(quotient_down(q * ONE, ONE as int) == q);
    assert(saturated(q) == q);
}

proof fn lemma_fixed_over(x: Fixed, y: Fixed, a: int, b: int)
    requires
        x.raw == a * ONE,
        y.raw == b * ONE,
        b == 1 || b == -1,
        within(a, 32767),
    ensures
        x.over(y).raw == (if b == 1 {
            a
        } else {
            -a
        }) * ONE,
{
    let q = a * ONE;
    assert(quotient_down(q * ONE, ONE as int) == q);
    assert((-(q * ONE)) / (ONE as int) == -q);
}

} // verus!
